use std::collections::BTreeSet;

use dmglr::commands::{demangle_cmd, get_cmd, mangle_cmd};
use dmglr::error::DmglrError;
use dmglr::filter::{
    generate_table, get_threads, select_parity, select_rank, CoreParity, Socket, Thread,
};
use dmglr::ompi::mangle;
use dmglr::smt::SMT;

#[test]
fn table_lengths() {
    assert_eq!(generate_table(&SMT::L2).len(), 128);
    assert_eq!(generate_table(&SMT::L4).len(), 256);
}

#[test]
fn table_layout_l2() {
    let t = generate_table(&SMT::L2);
    assert_eq!(&t[..6], &[0, 32, 1, 33, 2, 34]);
    assert_eq!(t[62], 31);
    assert_eq!(t[63], 63);
    assert_eq!(&t[64..68], &[64, 96, 65, 97]);
    assert_eq!(t[127], 127);
}

#[test]
fn table_layout_l4() {
    let t = generate_table(&SMT::L4);
    assert_eq!(&t[..8], &[0, 32, 64, 96, 1, 33, 65, 97]);
    assert_eq!(&t[128..132], &[128, 160, 192, 224]);
    assert_eq!(t[255], 255);
}

#[test]
fn table_entries_are_mangled_positions() {
    for smt in [SMT::L2, SMT::L4] {
        let t = generate_table(&smt);
        for (p, v) in t.iter().enumerate() {
            assert_eq!(*v, mangle(p as u32, &smt));
        }
    }
}

#[test]
fn thread_rank_coherence() {
    for smt in [SMT::L2, SMT::L4] {
        assert!(Thread::First.coherent(&smt));
        assert!(Thread::Second.coherent(&smt));
    }
    assert!(!Thread::Third.coherent(&SMT::L2));
    assert!(!Thread::Fourth.coherent(&SMT::L2));
    assert!(Thread::Third.coherent(&SMT::L4));
    assert!(Thread::Fourth.coherent(&SMT::L4));
    assert_eq!(Thread::First.index(), 0);
    assert_eq!(Thread::Second.index(), 1);
    assert_eq!(Thread::Third.index(), 2);
    assert_eq!(Thread::Fourth.index(), 3);
}

#[test]
fn third_rank_fails_at_l2_only() {
    let sockets = [None, Some(Socket::N0), Some(Socket::N1)];
    let parities = [None, Some(CoreParity::Odd), Some(CoreParity::Even)];
    for sck in sockets {
        for p in parities {
            assert!(get_threads(&SMT::L4, Some(Thread::Third), sck, p).is_ok());
            match get_threads(&SMT::L2, Some(Thread::Third), sck, p) {
                Err(DmglrError::IncompatibleFilter { thread_rank, width }) => {
                    assert_eq!(thread_rank, Thread::Third);
                    assert_eq!(width, 2);
                }
                other => panic!("unexpected {:?}", other),
            }
        }
    }
    assert!(matches!(
        get_threads(&SMT::L2, Some(Thread::Fourth), None, None),
        Err(DmglrError::IncompatibleFilter { thread_rank: Thread::Fourth, width: 2 })
    ));
}

#[test]
fn socket_split_lengths() {
    for smt in [SMT::L2, SMT::L4] {
        let all = generate_table(&smt);
        let n0 = get_threads(&smt, None, Some(Socket::N0), None).unwrap();
        let n1 = get_threads(&smt, None, Some(Socket::N1), None).unwrap();
        assert_eq!(n0.len(), smt.get_extra_threads() as usize);
        assert_eq!(n1.len(), all.len() - smt.get_extra_threads() as usize);
        let mut joined = n0.clone();
        joined.extend(n1);
        assert_eq!(joined, all);
    }
}

#[test]
fn no_filter_gives_the_table() {
    assert_eq!(get_threads(&SMT::L4, None, None, None).unwrap(), generate_table(&SMT::L4));
}

#[test]
fn parity_split() {
    for smt in [SMT::L2, SMT::L4] {
        let all = generate_table(&smt);
        let odd = get_threads(&smt, None, None, Some(CoreParity::Odd)).unwrap();
        let even = get_threads(&smt, None, None, Some(CoreParity::Even)).unwrap();
        assert!(odd.iter().all(|v| v % 2 == 1));
        assert!(even.iter().all(|v| v % 2 == 0));
        let mut union: BTreeSet<u32> = odd.iter().copied().collect();
        union.extend(even.iter().copied());
        let before: BTreeSet<u32> = all.iter().copied().collect();
        assert_eq!(union, before);
        assert_eq!(odd.len() + even.len(), all.len());
    }
}

#[test]
fn rank_filter_on_first_socket() {
    let first = get_threads(&SMT::L2, Some(Thread::First), Some(Socket::N0), None).unwrap();
    assert_eq!(first, (0..32).collect::<Vec<u32>>());
    let second = get_threads(&SMT::L2, Some(Thread::Second), Some(Socket::N0), None).unwrap();
    assert_eq!(second, (32..64).collect::<Vec<u32>>());
    let fourth = get_threads(&SMT::L4, Some(Thread::Fourth), Some(Socket::N1), None).unwrap();
    assert_eq!(fourth, (224..256).collect::<Vec<u32>>());
}

#[test]
fn all_filters_compose() {
    let r = get_threads(
        &SMT::L4,
        Some(Thread::Second),
        Some(Socket::N1),
        Some(CoreParity::Even),
    )
    .unwrap();
    assert_eq!(r, (160..192).filter(|v| v % 2 == 0).collect::<Vec<u32>>());
}

#[test]
fn select_rank_picks_one_per_chunk() {
    assert_eq!(select_rank(&vec![1, 2, 3, 4, 5, 6], 2, 1).unwrap(), vec![2, 4, 6]);
    assert_eq!(select_rank(&vec![1, 2, 3, 4, 5], 2, 0).unwrap(), vec![1, 3, 5]);
    assert_eq!(select_rank(&vec![], 4, 3).unwrap(), Vec::<u32>::new());
}

#[test]
fn select_rank_reports_a_short_chunk() {
    assert!(matches!(
        select_rank(&vec![1, 2, 3], 2, 1),
        Err(DmglrError::FilterIndexError(1))
    ));
    assert!(matches!(select_rank(&vec![1, 2], 2, 2), Err(DmglrError::FilterIndexError(2))));
}

#[test]
fn select_parity_keeps_order() {
    assert_eq!(select_parity(&vec![5, 2, 7, 4, 9], CoreParity::Odd), vec![5, 7, 9]);
    assert_eq!(select_parity(&vec![5, 2, 7, 4, 9], CoreParity::Even), vec![2, 4]);
    assert_eq!(select_parity(&vec![], CoreParity::Even), Vec::<u32>::new());
}

#[test]
fn demangle_cmd_sorts() {
    assert_eq!(demangle_cmd(&SMT::L2, &vec![64, 32, 1, 0]).unwrap(), vec![0, 1, 2, 64]);
    assert_eq!(demangle_cmd(&SMT::L2, &vec![]).unwrap(), Vec::<u32>::new());
}

#[test]
fn demangle_cmd_reports_the_first_bad_index() {
    assert!(matches!(
        demangle_cmd(&SMT::L2, &vec![3, 200, 130]),
        Err(DmglrError::OutOfRange(200))
    ));
}

#[test]
fn mangle_cmd_sorts() {
    assert_eq!(mangle_cmd(&SMT::L2, &vec![65, 32, 1, 0]), vec![0, 16, 32, 96]);
}

#[test]
fn get_cmd_demangles_the_selection() {
    let r = get_cmd(&SMT::L2, Some(Thread::First), Some(Socket::N0), None).unwrap();
    assert_eq!(r, (0..32).map(|v| 2 * v).collect::<Vec<u32>>());
    let all = get_cmd(&SMT::L4, None, None, None).unwrap();
    assert_eq!(all, (0..256).collect::<Vec<u32>>());
    assert!(matches!(
        get_cmd(&SMT::L2, Some(Thread::Third), None, None),
        Err(DmglrError::IncompatibleFilter { .. })
    ));
}
