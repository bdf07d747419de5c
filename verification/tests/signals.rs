use oxvoid::signals::{begin_effect, end_batch, end_effect, flush_pending, notify, Runtime};
use oxvoid::{batch, effect, memo, signal};
use std::collections::HashSet;

fn sorted(mut v: Vec<usize>) -> Vec<usize> {
    v.sort();
    v
}

#[test]
fn signal_holds_initial_value() {
    let mut rt = Runtime::new();
    let (read, write, state) = signal(&mut rt, 7i32);
    assert_eq!(read.get_untracked(&state), 7);
    assert_eq!(read.id(), 0);
    assert_eq!(write.id(), 0);
    assert_eq!(state.id(), 0);
    assert_eq!(state.subscriber_count(), 0);
}

#[test]
fn signal_ids_count_up() {
    let mut rt = Runtime::new();
    let (a, _, _) = signal(&mut rt, 1u8);
    let (b, _, _) = signal(&mut rt, 2u8);
    let (c, _, _) = signal(&mut rt, 3u8);
    assert_eq!((a.id(), b.id(), c.id()), (0, 1, 2));
}

#[test]
fn set_then_get_reads_the_new_value() {
    let mut rt = Runtime::new();
    let (read, write, mut state) = signal(&mut rt, String::from("a"));
    let run = write.set(&mut state, &mut rt, String::from("b"));
    assert!(run.is_empty());
    assert_eq!(read.get(&mut state, &rt), "b");
    assert_eq!(read.get_untracked(&state), "b");
}

#[test]
fn get_outside_an_effect_subscribes_nothing() {
    let mut rt = Runtime::new();
    let (read, _write, mut state) = signal(&mut rt, 5u32);
    assert_eq!(read.get(&mut state, &rt), 5);
    assert_eq!(state.subscriber_count(), 0);
}

#[test]
fn get_inside_an_effect_subscribes_it() {
    let mut rt = Runtime::new();
    let (read, write, mut state) = signal(&mut rt, 1i64);
    let run = effect(&mut rt);
    assert_eq!(run.id, 0);
    assert_eq!(run.prev, None);
    assert_eq!(rt.current(), Some(0));
    assert_eq!(read.get(&mut state, &rt), 1);
    end_effect(&mut rt, run.prev);
    assert_eq!(rt.current(), None);
    assert!(state.is_subscribed(0));
    assert_eq!(state.subscriber_count(), 1);
    // A write reruns the subscribed effect.
    let to_run = write.set(&mut state, &mut rt, 2);
    assert_eq!(to_run, vec![0]);
    assert_eq!(read.get_untracked(&state), 2);
}

#[test]
fn reading_twice_subscribes_once() {
    let mut rt = Runtime::new();
    let (read, write, mut state) = signal(&mut rt, 0u8);
    let run = effect(&mut rt);
    read.get(&mut state, &rt);
    read.get(&mut state, &rt);
    end_effect(&mut rt, run.prev);
    assert_eq!(state.subscriber_count(), 1);
    assert_eq!(write.set(&mut state, &mut rt, 1), vec![0]);
}

#[test]
fn every_subscriber_runs_once_per_write() {
    let mut rt = Runtime::new();
    let (read, write, mut state) = signal(&mut rt, 0u8);
    for _ in 0..3 {
        let run = effect(&mut rt);
        read.get(&mut state, &rt);
        end_effect(&mut rt, run.prev);
    }
    assert_eq!(rt.effect_count(), 3);
    let to_run = write.set(&mut state, &mut rt, 9);
    assert_eq!(sorted(to_run), vec![0, 1, 2]);
}

#[test]
fn nested_effects_restore_the_outer_one() {
    let mut rt = Runtime::new();
    let outer = effect(&mut rt);
    let inner = effect(&mut rt);
    assert_eq!(inner.id, 1);
    assert_eq!(inner.prev, Some(0));
    assert_eq!(rt.current(), Some(1));
    end_effect(&mut rt, inner.prev);
    assert_eq!(rt.current(), Some(0));
    end_effect(&mut rt, outer.prev);
    assert_eq!(rt.current(), None);
}

#[test]
fn begin_effect_reruns_a_registered_effect() {
    let mut rt = Runtime::new();
    let first = effect(&mut rt);
    end_effect(&mut rt, first.prev);
    let prev = begin_effect(&mut rt, 0);
    assert_eq!(prev, None);
    assert_eq!(rt.current(), Some(0));
    end_effect(&mut rt, prev);
    assert_eq!(rt.current(), None);
}

#[test]
fn update_applies_the_function() {
    let mut rt = Runtime::new();
    let (read, write, mut state) = signal(&mut rt, 10i32);
    let run = write.update(&mut state, &mut rt, |v| v * 3 + 1);
    assert!(run.is_empty());
    assert_eq!(read.get_untracked(&state), 31);
}

#[test]
fn batch_defers_effects_until_it_closes() {
    let mut rt = Runtime::new();
    let (read, write, mut state) = signal(&mut rt, 0u8);
    let run = effect(&mut rt);
    read.get(&mut state, &rt);
    end_effect(&mut rt, run.prev);

    batch(&mut rt);
    assert_eq!(rt.batch_depth(), 1);
    assert!(write.set(&mut state, &mut rt, 1).is_empty());
    assert!(write.set(&mut state, &mut rt, 2).is_empty());
    assert_eq!(rt.pending(), vec![0, 0]);
    // Each deferred effect runs once when the batch closes.
    assert_eq!(end_batch(&mut rt), vec![0]);
    assert_eq!(rt.batch_depth(), 0);
    assert!(rt.pending().is_empty());
    assert_eq!(read.get_untracked(&state), 2);
}

#[test]
fn nested_batch_runs_effects_only_at_the_outermost_close() {
    let mut rt = Runtime::new();
    let (read, write, mut state) = signal(&mut rt, 0u8);
    let run = effect(&mut rt);
    read.get(&mut state, &rt);
    end_effect(&mut rt, run.prev);

    batch(&mut rt);
    batch(&mut rt);
    write.set(&mut state, &mut rt, 1);
    assert!(end_batch(&mut rt).is_empty());
    assert_eq!(rt.pending(), vec![0]);
    assert_eq!(end_batch(&mut rt), vec![0]);
}

#[test]
fn batch_runs_effects_in_order_of_first_deferral() {
    let mut rt = Runtime::new();
    let (ra, wa, mut sa) = signal(&mut rt, 0u8);
    let (rb, wb, mut sb) = signal(&mut rt, 0u8);
    let e0 = effect(&mut rt);
    rb.get(&mut sb, &rt);
    end_effect(&mut rt, e0.prev);
    let e1 = effect(&mut rt);
    ra.get(&mut sa, &rt);
    end_effect(&mut rt, e1.prev);

    batch(&mut rt);
    wa.set(&mut sa, &mut rt, 1);
    wb.set(&mut sb, &mut rt, 1);
    wa.set(&mut sa, &mut rt, 2);
    assert_eq!(rt.pending(), vec![1, 0, 1]);
    assert_eq!(end_batch(&mut rt), vec![1, 0]);
}

#[test]
fn notify_outside_a_batch_returns_registered_subscribers() {
    let mut rt = Runtime::new();
    effect(&mut rt);
    effect(&mut rt);
    let mut subs = HashSet::new();
    subs.insert(1usize);
    subs.insert(0usize);
    subs.insert(7usize); // never registered
    let run = notify(&mut rt, &subs);
    assert_eq!(sorted(run), vec![0, 1]);
    assert!(rt.pending().is_empty());
}

#[test]
fn notify_inside_a_batch_queues() {
    let mut rt = Runtime::new();
    effect(&mut rt);
    let mut subs = HashSet::new();
    subs.insert(0usize);
    batch(&mut rt);
    assert!(notify(&mut rt, &subs).is_empty());
    assert_eq!(rt.pending(), vec![0]);
}

#[test]
fn flush_pending_dedups_in_order() {
    let mut rt = Runtime::new();
    for _ in 0..3 {
        effect(&mut rt);
    }
    let mut s2 = HashSet::new();
    s2.insert(2usize);
    let mut s0 = HashSet::new();
    s0.insert(0usize);
    batch(&mut rt);
    notify(&mut rt, &s2);
    notify(&mut rt, &s0);
    notify(&mut rt, &s2);
    assert_eq!(rt.pending(), vec![2, 0, 2]);
    assert_eq!(flush_pending(&mut rt), vec![2, 0]);
    assert!(rt.pending().is_empty());
}

#[test]
fn memo_creates_a_signal_and_its_effect() {
    let mut rt = Runtime::new();
    let (src_read, src_write, mut src_state) = signal(&mut rt, 3i32);
    let (read, write, mut state, run) = memo(&mut rt, 6i32);
    assert_eq!(read.id(), 1);
    assert_eq!(run.id, 0);
    assert_eq!(rt.current(), Some(0));
    // The memo's first run reads its source and writes its value.
    let doubled = src_read.get(&mut src_state, &rt) * 2;
    write.set(&mut state, &mut rt, doubled);
    end_effect(&mut rt, run.prev);
    assert_eq!(read.get_untracked(&state), 6);
    // A change of the source reruns the memo's effect.
    assert_eq!(src_write.set(&mut src_state, &mut rt, 5), vec![0]);
}

#[test]
fn signal_count_counts_signals_and_memos() {
    let mut rt = Runtime::new();
    assert_eq!(rt.signal_count(), 0);
    signal(&mut rt, 1u8);
    let (_, _, _, run) = memo(&mut rt, 2u8);
    end_effect(&mut rt, run.prev);
    assert_eq!(rt.signal_count(), 2);
    assert_eq!(rt.effect_count(), 1);
}
