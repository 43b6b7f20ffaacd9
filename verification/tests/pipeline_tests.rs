use uwu_db::image::ImageData;
use uwu_db::pipeline::{DecodeOutcome, LoadPipeline};

fn bitmap(w: usize, h: usize) -> ImageData {
    ImageData { width: w, height: h, pixels: vec![0u8; w * h * 4] }
}

#[test]
fn results_arrive_in_submission_order_exactly_once() {
    let mut p = LoadPipeline::new();
    p.submit("a.png".to_string());
    p.submit("b.png".to_string());
    p.submit("c.png".to_string());
    assert_eq!(p.images_in_flight, 3);

    p.worker_step(Some(bitmap(1, 1)));
    p.worker_step(Some(bitmap(2, 2)));
    p.worker_step(Some(bitmap(3, 3)));

    let mut received: Vec<String> = Vec::new();
    while let Some(outcome) = p.try_receive() {
        match outcome {
            DecodeOutcome::Loaded(_, path) => received.push(path),
            DecodeOutcome::Failed(path) => panic!("unexpected failure for {}", path),
        }
    }
    assert_eq!(received, vec!["a.png", "b.png", "c.png"]);
    assert_eq!(p.images_in_flight, 0);
}

#[test]
fn duplicate_submission_queues_two_decodes() {
    let mut p = LoadPipeline::new();
    p.submit("a.png".to_string());
    p.submit("a.png".to_string());
    assert_eq!(p.images_in_flight, 2);
    p.worker_step(Some(bitmap(1, 1)));
    p.worker_step(Some(bitmap(1, 1)));
    assert!(p.try_receive().is_some());
    assert!(p.try_receive().is_some());
    assert!(p.try_receive().is_none());
    assert_eq!(p.images_in_flight, 0);
}

#[test]
fn failed_decode_does_not_block_later_paths() {
    // "a.png" fails to decode, "b.png" succeeds: exactly one bitmap is
    // received, and the in-flight counter still returns to zero because
    // the failure is delivered as an outcome of its own.
    let mut p = LoadPipeline::new();
    p.submit("a.png".to_string());
    p.submit("b.png".to_string());
    assert_eq!(p.images_in_flight, 2);

    p.worker_step(None);
    p.worker_step(Some(bitmap(4, 4)));

    let mut loaded: Vec<String> = Vec::new();
    let mut failed: Vec<String> = Vec::new();
    while let Some(outcome) = p.try_receive() {
        match outcome {
            DecodeOutcome::Loaded(_, path) => loaded.push(path),
            DecodeOutcome::Failed(path) => failed.push(path),
        }
    }
    assert_eq!(loaded, vec!["b.png"]);
    assert_eq!(failed, vec!["a.png"]);
    assert_eq!(p.images_in_flight, 0);
}

#[test]
fn poll_on_empty_pipeline_returns_nothing() {
    let mut p = LoadPipeline::new();
    assert!(p.try_receive().is_none());
    assert_eq!(p.images_in_flight, 0);
}

#[test]
fn poll_before_decode_returns_nothing() {
    let mut p = LoadPipeline::new();
    p.submit("a.png".to_string());
    assert!(p.try_receive().is_none());
    assert_eq!(p.images_in_flight, 1);
    p.worker_step(Some(bitmap(1, 1)));
    match p.try_receive() {
        Some(DecodeOutcome::Loaded(data, path)) => {
            assert_eq!(path, "a.png");
            assert_eq!(data.width, 1);
        }
        other => panic!("expected a loaded outcome, got {:?}", other.is_some()),
    }
    assert_eq!(p.images_in_flight, 0);
}
