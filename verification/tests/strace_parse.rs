use wazzi::strace::parse::{
    Arg, Event, FlagSet, NonExitEvent, NormalThreadEvent, ThreadEvent, Trace, Unfinished, Value,
};

#[test]
fn arg_ok() {
    let cases = vec![
        (
            "213486712",
            Arg {
                value:   Value::Int(213486712),
                changed: None,
            },
        ),
        (
            "0x00000000",
            Arg {
                value:   Value::Addr(0),
                changed: None,
            },
        ),
        (
            "0x00000001",
            Arg {
                value:   Value::Addr(1),
                changed: None,
            },
        ),
        (
            "NULL",
            Arg {
                value:   Value::Ident("NULL".to_owned()),
                changed: None,
            },
        ),
        (
            "FUTEX_WAIT_BITSET_PRIVATE",
            Arg {
                value:   Value::Ident("FUTEX_WAIT_BITSET_PRIVATE".to_owned()),
                changed: None,
            },
        ),
        (
            "O_RDONLY|O_NONBLOCK|O_LARGEFILE",
            Arg {
                value:   Value::FlagSet(FlagSet(vec![
                    "O_RDONLY".to_owned(),
                    "O_NONBLOCK".to_owned(),
                    "O_LARGEFILE".to_owned(),
                ])),
                changed: None,
            },
        ),
    ];

    for (i, case) in cases.into_iter().enumerate() {
        let (_input, got) = Arg::parse(case.0).unwrap();

        assert_eq!(case.1, got, "{i}");
    }
}

#[test]
fn unfinished() {
    let cases = vec![
        (
            r#"15807 futex(0x562811cdfee8, FUTEX_WAIT_BITSET_PRIVATE, 4294967295, NULL, FUTEX_BITSET_MATCH_ANY <unfinished ...>"#,
            ThreadEvent {
                pid:   15807,
                event: Event::Normal(NormalThreadEvent {
                    func: "futex".to_owned(),
                    case: NonExitEvent::Unfinished(Unfinished {
                        args: vec![
                            Arg {
                                value:   Value::Addr(94730097393384),
                                changed: None,
                            },
                            Arg {
                                value:   Value::Ident("FUTEX_WAIT_BITSET_PRIVATE".to_owned()),
                                changed: None,
                            },
                            Arg {
                                value:   Value::Int(4294967295),
                                changed: None,
                            },
                            Arg {
                                value:   Value::Ident("NULL".to_owned()),
                                changed: None,
                            },
                            Arg {
                                value:   Value::Ident("FUTEX_BITSET_MATCH_ANY".to_owned()),
                                changed: None,
                            },
                        ],
                    }),
                }),
            },
        ),
        (
            r#"15805 read(0, <unfinished ...>"#,
            ThreadEvent {
                pid:   15805,
                event: Event::Normal(NormalThreadEvent {
                    func: "read".to_owned(),
                    case: NonExitEvent::Unfinished(Unfinished {
                        args: vec![Arg {
                            value:   Value::Int(0),
                            changed: None,
                        }],
                    }),
                }),
            },
        ),
        (
            r#"15805 epoll_wait(3,  <unfinished ...>"#,
            ThreadEvent {
                pid:   15805,
                event: Event::Normal(NormalThreadEvent {
                    func: "epoll_wait".to_owned(),
                    case: NonExitEvent::Unfinished(Unfinished {
                        args: vec![Arg {
                            value:   Value::Int(3),
                            changed: None,
                        }],
                    }),
                }),
            },
        ),
    ];

    for (i, case) in cases.into_iter().enumerate() {
        let (rest, got) = ThreadEvent::parse(case.0).expect(&format!("case {i}: {}", case.0));

        assert!(rest.is_empty(), "case {i}: {rest}");
        assert_eq!(got, case.1, "{i}");
    }
}

#[test]
fn lines() {
    let lines = r#"
        15805 read(0, <unfinished ...>
        15806 read(0, <unfinished ...>
        15805 epoll_wait(3,  <unfinished ...>
        15808 <... read resumed>""..., 8192)    = 1383
        15821 sched_getaffinity(15821, 32, [0 1 2 3 4 5 6 7 8 9 10 11 12 13 14 15]) = 8
        12812 readv(0, [{iov_base=""..., iov_len=7}, {iov_base=""..., iov_len=1024}], 2) = 1031
        89909 restart_syscall(<... resuming interrupted read ...> <unfinished ...>
        "#;

    let (rest, trace) = Trace::parse(lines);

    assert!(rest.is_empty(), "{rest}");
    assert_eq!(trace.events.len(), 7, "{:#?}", trace);
}

#[test]
fn resumed_changed() {
    let lines = r#"
            37860 clone3({flags=CLONE_VM|CLONE_FS|CLONE_FILES|CLONE_SIGHAND|CLONE_THREAD|CLONE_SYSVSEM|CLONE_SETTLS|CLONE_PARENT_SETTID|CLONE_CHILD_CLEARTID, child_tid=0x7fc7c1000990, parent_tid=0x7fc7c1000990, exit_signal=0, stack=0x7fc7c0e00000, stack_size=0x1ff900, tls=0x7fc7c10006c0} <unfinished ...>
            37860 <... clone3 resumed> => {parent_tid=[37905]}, 88) = 37905
        "#;

    let (rest, trace) = Trace::parse(lines);

    assert!(rest.is_empty(), "{rest}");
    assert_eq!(trace.events.len(), 2, "{:#?}", trace);
}

#[test]
fn resuming_futex() {
    let lines = r#"
            42526 restart_syscall(<... resuming interrupted futex ...> <unfinished ...>
        "#;

    let (rest, trace) = Trace::parse(lines);

    assert!(rest.is_empty(), "{rest}");
    assert_eq!(trace.events.len(), 1, "{:#?}", trace);
}
