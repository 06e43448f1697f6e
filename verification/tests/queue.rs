use bbring::RingBuffer;

#[test]
fn smoke() {
    let mut q = RingBuffer::<i32, 4, 2>::new();
    q.push(7).unwrap();
    assert_eq!(q.pop(), Some(7));
    q.push(8).unwrap();
    assert_eq!(q.pop(), Some(8));
    assert!(q.pop().is_none());
}

#[test]
fn spsc() {
    const COUNT: usize = 100_000;

    // one producer and one consumer taking turns: the producer pushes until
    // the ring refuses, the consumer then drains one element
    let mut q = RingBuffer::<usize, 4, 2>::new();
    let mut expected: usize = 0;
    for i in 0..COUNT {
        loop {
            if q.push(i).is_ok() {
                break;
            }
            let x = q.pop().unwrap();
            assert_eq!(x, expected);
            expected += 1;
        }
    }
    while let Some(x) = q.pop() {
        assert_eq!(x, expected);
        expected += 1;
    }
    assert_eq!(expected, COUNT);
    assert!(q.pop().is_none());
}

#[test]
fn spmc() {
    const COUNT: usize = 25_000;
    const CTHREADS: usize = 4;

    // one producer feeding four consumers that drain in turn
    let mut q = RingBuffer::<usize, 4, 2>::new();
    let mut v = vec![0usize; COUNT];
    for _ in 0..CTHREADS {
        for i in 0..COUNT {
            loop {
                if q.push(i).is_ok() {
                    break;
                }
                let n = q.pop().unwrap();
                v[n] += 1;
            }
        }
    }
    while let Some(n) = q.pop() {
        v[n] += 1;
    }
    for c in v {
        assert_eq!(c, CTHREADS);
    }
}

#[test]
fn mpsc() {
    const COUNT: usize = 25_000;
    const PTHREADS: usize = 8;

    // eight producers take turns pushing their own sequence; one consumer
    // counts every value it sees
    let mut q = RingBuffer::<usize, 4, 2>::new();
    let mut v = vec![0usize; COUNT];
    let mut next = [0usize; PTHREADS];
    let mut done: usize = 0;
    while done < PTHREADS {
        done = 0;
        for p in 0..PTHREADS {
            if next[p] < COUNT {
                if q.push(next[p]).is_ok() {
                    next[p] += 1;
                }
            } else {
                done += 1;
            }
            if let Some(n) = q.pop() {
                v[n] += 1;
            }
        }
    }
    while let Some(n) = q.pop() {
        v[n] += 1;
    }
    for c in v {
        assert_eq!(c, PTHREADS);
    }
}

#[test]
fn mpmc() {
    const COUNT: usize = 25_000;
    const THREADS: usize = 4;

    // four producers and four consumers taking turns
    let mut q = RingBuffer::<usize, 4, 2>::new();
    let mut v = vec![0usize; COUNT];
    let mut next = [0usize; THREADS];
    let mut done: usize = 0;
    while done < THREADS {
        done = 0;
        for p in 0..THREADS {
            if next[p] < COUNT {
                if q.push(next[p]).is_ok() {
                    next[p] += 1;
                }
            } else {
                done += 1;
            }
        }
        for _ in 0..THREADS {
            if let Some(n) = q.pop() {
                v[n] += 1;
            }
        }
    }
    while let Some(n) = q.pop() {
        v[n] += 1;
    }
    for c in v {
        assert_eq!(c, THREADS);
    }
}
