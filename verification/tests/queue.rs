use ambient::meter::{Meter, MeterPhase};
use ambient::queue::{Polled, Queue};

fn outcome(dir: &str, result: Result<String, String>) -> Polled {
    Polled::Arrived((dir.into(), result))
}

/// Pushing a second session while the first is being transcribed queues it,
/// and the two finish in order.
#[test]
fn jobs_run_one_at_a_time_in_the_order_they_arrived() {
    let mut q = Queue::new();
    assert!(q.is_empty());
    assert_eq!(q.summary(), None);

    q.push("/s/2026-09-02T0900".into());
    q.push("/s/2026-09-02T1000".into());
    assert_eq!(q.len(), 2);
    assert!(q.poll(Polled::Empty).is_none(), "nothing has finished yet");

    let o = q.poll(outcome("/s/2026-09-02T0900", Ok("/s/2026-09-02T0900".into()))).unwrap();
    assert_eq!(o.0, "/s/2026-09-02T0900");
    assert!(o.1.is_ok());
    assert_eq!(q.len(), 1);

    let o = q.poll(outcome("/s/2026-09-02T1000", Ok("/s/2026-09-02T1000".into()))).unwrap();
    assert_eq!(o.0, "/s/2026-09-02T1000");
    assert!(q.is_empty());
}

/// The menu line names the session in flight and counts the rest.
#[test]
fn the_summary_names_the_front_and_counts_the_waiting() {
    let mut q = Queue::new();
    q.push("/s/a".into());
    // Pushed and not yet touched by the worker: never "Recording".
    assert!(q.summary().unwrap().starts_with("Transcribing a"));
    q.push("/s/b".into());
    q.push("/s/c".into());
    let mut m = Meter::default();
    m.set_phase(MeterPhase::Diarizing);
    q.report(m);
    assert_eq!(
        q.summary().as_deref(),
        Some("Separating voices a · 2 waiting")
    );
    let _ = q.poll(outcome("/s/a", Ok("/s/a".into())));
    assert!(q.summary().unwrap().ends_with("b · 1 waiting"));
    let _ = q.poll(outcome("/s/b", Ok("/s/b".into())));
    assert!(q.summary().unwrap().ends_with(" c"));
}

/// A failed transcription is reported against its own session and does
/// not stop the one behind it.
#[test]
fn a_failure_is_reported_and_the_queue_moves_on() {
    let mut q = Queue::new();
    q.push("/s/bad".into());
    q.push("/s/good".into());
    let o = q.poll(outcome("/s/bad", Err("the models did not load".into()))).unwrap();
    assert_eq!(o.0, "/s/bad");
    assert!(o.1.unwrap_err().contains("models"));
    let o = q.poll(outcome("/s/good", Ok("/s/good".into()))).unwrap();
    assert_eq!(o.0, "/s/good");
    assert!(o.1.is_ok());
    assert!(q.is_empty());
}

/// A worker that dies must not leave jobs pending for ever, or a deferred quit
/// would wait on them for ever.
#[test]
fn a_dead_worker_fails_every_pending_job_rather_than_hanging() {
    let mut q = Queue::new();
    q.push("/s/a".into());
    q.push("/s/b".into());
    let o = q.poll(Polled::Gone).unwrap();
    assert_eq!(o.0, "/s/a");
    assert!(o.1.is_err());
    let o = q.poll(Polled::Gone).unwrap();
    assert_eq!(o.0, "/s/b");
    assert!(o.1.unwrap_err().contains("went away"));
    assert!(q.is_empty());
    assert!(q.poll(Polled::Gone).is_none());
}

/// A job is queued with nothing metered yet, so that nothing of an earlier one shows.
#[test]
fn a_queued_job_starts_from_nothing() {
    let mut q = Queue::new();
    q.push("/s/a".into());
    q.push("/s/b".into());
    q.report(Meter { elapsed_ms: 7, ..Meter::default() });
    assert!(q.poll(Polled::Gone).is_some());
    assert_eq!(q.summary().as_deref(), Some("Transcribing b"));
}

/// Results come back in the order the sessions were queued, whatever they are and
/// however often nothing is found in between.
#[test]
fn every_job_comes_back_once_and_in_order() {
    let dirs: Vec<String> = (0..5).map(|i| format!("/s/{i}")).collect();
    let mut q = Queue::new();
    for d in &dirs {
        q.push(d.clone());
    }
    let mut got = Vec::new();
    for (i, d) in dirs.iter().enumerate() {
        assert!(q.poll(Polled::Empty).is_none());
        let result = if i % 2 == 0 { Ok(d.clone()) } else { Err("no model".to_string()) };
        got.push(q.poll(outcome(d, result)).unwrap());
        assert_eq!(q.len(), dirs.len() - i - 1);
    }
    assert!(got.iter().map(|o| &o.0).eq(dirs.iter()));
    assert!(got[0].1.is_ok() && got[1].1.is_err());
    assert!(q.is_empty());
}
