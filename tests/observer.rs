use basic_bulk_renamer::observer::{Observer, SubjectImpl};
use std::cell::Cell;
use std::rc::Rc;

#[derive(Clone)]
struct CounterObserver {
    count: Rc<Cell<usize>>,
}

impl CounterObserver {
    fn new() -> Self {
        Self { count: Rc::new(Cell::new(0)) }
    }

    fn reset(&self) {
        self.count.set(0);
    }

    fn count(&self) -> usize {
        self.count.get()
    }
}

impl Observer<(), String> for CounterObserver {
    fn update(&self, _arg: &()) -> Result<(), String> {
        self.count.set(self.count.get() + 1);
        Ok(())
    }
}

struct FailingObserver;

impl Observer<(), String> for FailingObserver {
    fn update(&self, _arg: &()) -> Result<(), String> {
        Err("refused".to_string())
    }
}

enum Either {
    Counter(CounterObserver),
    Failing(FailingObserver),
}

impl Observer<(), String> for Either {
    fn update(&self, arg: &()) -> Result<(), String> {
        match self {
            Either::Counter(c) => c.update(arg),
            Either::Failing(f) => f.update(arg),
        }
    }
}

#[test]
fn test_subject_impl() {
    let mut subject = SubjectImpl::new();
    let observer = CounterObserver::new();

    subject.attach(observer.clone());
    assert_eq!(subject.len(), 1);

    observer.reset();
    let result: Result<(), String> = subject.notify(());
    result.unwrap();
    assert_eq!(observer.count(), 1);
}

#[test]
fn notify_reaches_every_observer_in_turn() {
    let mut subject = SubjectImpl::new();
    let first = CounterObserver::new();
    let second = CounterObserver::new();
    subject.attach(first.clone());
    subject.attach(second.clone());
    subject.attach(first.clone());
    assert_eq!(subject.len(), 3);

    let result: Result<(), String> = subject.notify(());
    assert!(result.is_ok());
    assert_eq!(first.count(), 2);
    assert_eq!(second.count(), 1);
}

#[test]
fn notify_stops_at_the_first_failure() {
    let mut subject = SubjectImpl::new();
    let before = CounterObserver::new();
    let after = CounterObserver::new();
    subject.attach(Either::Counter(before.clone()));
    subject.attach(Either::Failing(FailingObserver));
    subject.attach(Either::Counter(after.clone()));

    let result: Result<(), String> = subject.notify(());
    assert_eq!(result, Err("refused".to_string()));
    assert_eq!(before.count(), 1);
    assert_eq!(after.count(), 0);
}

#[test]
fn notify_without_observers_succeeds() {
    let subject: SubjectImpl<CounterObserver> = SubjectImpl::new();
    assert_eq!(subject.len(), 0);
    let result: Result<(), String> = subject.notify(());
    assert!(result.is_ok());
}
