use solari::raptor::Foot;
use solari::timetable::{check_transfers, Transfer, MAX_TRANSFER_SECONDS};
use solari::transfers::{build_transfers, transfer_list};

#[test]
fn walks_are_kept_sorted_and_within_the_limit() {
    let cands = vec![
        Foot { stop: 3, seconds: 400 },
        Foot { stop: 0, seconds: 0 },
        Foot { stop: 1, seconds: 90 },
        Foot { stop: 2, seconds: MAX_TRANSFER_SECONDS + 1 },
        Foot { stop: 4, seconds: MAX_TRANSFER_SECONDS },
        Foot { stop: 9, seconds: 10 },
        Foot { stop: 5, seconds: 90 },
    ];
    let list = transfer_list(0, 6, &cands);
    assert_eq!(
        list,
        vec![
            Transfer { to: 1, seconds: 90 },
            Transfer { to: 5, seconds: 90 },
            Transfer { to: 3, seconds: 400 },
            Transfer { to: 4, seconds: 1200 },
        ]
    );
    assert!(check_transfers(&list, 0, 6));
    assert!(!check_transfers(&list, 1, 6));
    assert!(!check_transfers(&list, 0, 5));
    assert!(!check_transfers(&vec![Transfer { to: 1, seconds: 9 }, Transfer { to: 2, seconds: 8 }], 0, 6));
    assert!(!check_transfers(&vec![Transfer { to: 1, seconds: 1201 }], 0, 6));
}

#[test]
fn the_table_has_a_list_for_every_stop() {
    let cands = vec![
        vec![Foot { stop: 1, seconds: 100 }, Foot { stop: 2, seconds: 50 }],
        vec![Foot { stop: 0, seconds: 101 }],
    ];
    let table = build_transfers(3, &cands);
    assert_eq!(
        table,
        vec![
            vec![Transfer { to: 2, seconds: 50 }, Transfer { to: 1, seconds: 100 }],
            vec![Transfer { to: 0, seconds: 101 }],
            vec![],
        ]
    );
    assert_eq!(build_transfers(0, &cands), Vec::<Vec<Transfer>>::new());
}

#[test]
fn symmetric_walks_are_stored_both_ways() {
    let epsilon: i64 = 5;
    let cands = vec![
        vec![Foot { stop: 1, seconds: 100 }, Foot { stop: 2, seconds: 700 }],
        vec![Foot { stop: 0, seconds: 103 }, Foot { stop: 2, seconds: 1196 }],
        vec![Foot { stop: 0, seconds: 698 }, Foot { stop: 1, seconds: 1199 }],
    ];
    let table = build_transfers(3, &cands);
    for s in 0..3 {
        for walk in &table[s] {
            let back = table[walk.to as usize]
                .iter()
                .find(|b| b.to as usize == s)
                .expect("the walk back is stored");
            assert!((walk.seconds as i64 - back.seconds as i64).abs() <= epsilon);
        }
    }
}

#[test]
fn a_walk_at_the_limit_may_lack_its_way_back() {
    let cands = vec![vec![Foot { stop: 1, seconds: 1198 }], vec![Foot { stop: 0, seconds: 1202 }]];
    let table = build_transfers(2, &cands);
    assert_eq!(table, vec![vec![Transfer { to: 1, seconds: 1198 }], vec![]]);
}
