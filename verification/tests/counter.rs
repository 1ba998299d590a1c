use lockfree::Counter;

#[test]
fn test_ai() {
    for _ in 0..100 {
        let c = Counter::new(10000);

        crossbeam::scope(|scope| {
            let mut threads = vec![];
            for _ in 0..100 {
                let c = &c;
                threads.push(scope.spawn(move |_| {
                    let mut out = vec![];
                    while let Some(v) = c.next() {
                        out.push(v);
                    }
                    out
                }));
            }

            let mut seen = [false; 10000];
            for thread in threads {
                for i in thread.join().unwrap() {
                    assert!(!seen[i]);
                    seen[i] = true;
                }
            }
        })
        .unwrap();
    }
}

#[test]
fn drain_yields_every_ticket_once() {
    let c = Counter::new(5);
    let mut out = vec![];
    while let Some(v) = c.next() {
        out.push(v);
    }
    assert_eq!(out, vec![4, 3, 2, 1, 0]);
}

#[test]
fn exhausted_counter_stays_exhausted() {
    let c = Counter::new(3);
    while c.next().is_some() {}
    assert_eq!(c.next(), None);
    assert_eq!(c.next(), None);
    assert_eq!(c.next(), None);
}

#[test]
fn empty_counter_yields_nothing() {
    let c = Counter::new(0);
    assert_eq!(c.next(), None);
    assert_eq!(c.bound(), 0);
}

#[test]
fn single_caller_sees_decreasing_tickets() {
    let c = Counter::new(100);
    let mut last = c.next().unwrap();
    while let Some(v) = c.next() {
        assert!(v < last);
        assert!(v < 100);
        last = v;
    }
    assert_eq!(last, 0);
}

#[test]
fn concurrent_drain_is_exact_partition() {
    let n = 1000;
    let c = Counter::new(n);
    let collected: Vec<Vec<usize>> = crossbeam::scope(|scope| {
        let mut threads = vec![];
        for _ in 0..8 {
            let c = &c;
            threads.push(scope.spawn(move |_| {
                let mut out = vec![];
                while let Some(v) = c.next() {
                    out.push(v);
                }
                out
            }));
        }
        threads.into_iter().map(|t| t.join().unwrap()).collect()
    })
    .unwrap();

    let mut seen = vec![false; n];
    for thread_values in &collected {
        for &v in thread_values {
            assert!(v < n);
            assert!(!seen[v]);
            seen[v] = true;
        }
    }
    assert!(seen.iter().all(|&s| s));
    assert_eq!(c.next(), None);
}
