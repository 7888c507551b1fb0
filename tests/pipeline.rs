use poligen::gallery::ArtifactRecord;
use poligen::generator::{request_url, url_result, GenerationCause, PipelineError};
use poligen::naming::output_file_name;
use poligen::output_path;
use poligen::pipeline::{action_for_outcome, Action, AlertKind, GenerationOutcome, Session};

fn record(path: &str, modified_at: u128) -> ArtifactRecord {
    ArtifactRecord { path: path.to_string(), modified_at }
}

#[test]
fn output_directory_is_relative() {
    assert_eq!(output_path(), "outputs/");
}

#[test]
fn request_url_encodes_query() {
    assert_eq!(
        request_url("cat", [512, 512]),
        Ok("https://image.pollinations.ai/prompt/cat?width=512&height=512&nologo=false".to_string())
    );
    assert_eq!(
        request_url("a red fox", [1024, 576]),
        Ok("https://image.pollinations.ai/prompt/a%20red%20fox?width=1024&height=576&nologo=false"
            .to_string())
    );
}

#[test]
fn parse_failure_is_a_generation_failure() {
    assert_eq!(
        url_result(Err(url::ParseError::EmptyHost)),
        Err(PipelineError::GenerationFailed(GenerationCause::InvalidUrl(url::ParseError::EmptyHost)))
    );
    assert_eq!(url_result(Ok("https://example.net/".to_string())), Ok("https://example.net/".to_string()));
}

#[test]
fn generation_failure_is_reported_not_saved() {
    let err = PipelineError::GenerationFailed(GenerationCause::Transport("connection refused".to_string()));
    match action_for_outcome(GenerationOutcome::Failure(err)) {
        Action::Alert(kind, e) => {
            assert_eq!(kind, AlertKind::Generation);
            assert_eq!(
                e,
                PipelineError::GenerationFailed(GenerationCause::Transport("connection refused".to_string()))
            );
        }
        _ => panic!("a failed generation must only be reported"),
    }
}

#[test]
fn saving_failure_keeps_gallery() {
    let mut session = Session::start(Some(vec![record("outputs/output_1.jpg", 10)]));
    let before = session.gallery().clone();
    let action = session.on_saved(
        Err(PipelineError::PersistenceFailed("permission denied".to_string())),
        Some(vec![record("outputs/output_1.jpg", 10), record("outputs/output_2.jpg", 20)]),
    );
    assert_eq!(session.gallery(), &before);
    match action {
        Action::Alert(kind, e) => {
            assert_eq!(kind, AlertKind::Saving);
            assert_eq!(e, PipelineError::PersistenceFailed("permission denied".to_string()));
        }
        _ => panic!("a failed save must be reported"),
    }
}

#[test]
fn stub_generation_saves_one_file() {
    let bytes = vec![0xFF, 0xD8, 0xFF, 0xE0, 1, 2, 3];
    assert!(request_url("cat", [512, 512]).is_ok());
    let mut session = Session::start(None);
    assert!(session.gallery().is_empty());
    let saved = match action_for_outcome(GenerationOutcome::Success(bytes.clone())) {
        Action::Save(b) => b,
        _ => panic!("a successful generation must be saved"),
    };
    assert_eq!(saved, bytes);
    let name = output_file_name(&Vec::new(), "jpg");
    assert_eq!(name, "output_1.jpg");
    let path = format!("{}{}", output_path(), name);
    let action = session.on_saved(Ok(path.clone()), Some(vec![record(&path, 1)]));
    match action {
        Action::Show(p) => assert_eq!(p, "outputs/output_1.jpg"),
        _ => panic!("a saved image must be shown"),
    }
    assert_eq!(session.gallery(), &vec!["outputs/output_1.jpg".to_string()]);
}

#[test]
fn two_saves_get_distinct_names() {
    for first_bytes in [vec![1u8], vec![2u8]] {
        let mut stems: Vec<String> = Vec::new();
        let mut names = Vec::new();
        for bytes in [first_bytes.clone(), vec![9u8]] {
            match action_for_outcome(GenerationOutcome::Success(bytes)) {
                Action::Save(_) => {}
                _ => panic!("a successful generation must be saved"),
            }
            let name = output_file_name(&stems, "jpg");
            stems.push(name.trim_end_matches(".jpg").to_string());
            names.push(name);
        }
        assert_eq!(names, vec!["output_1.jpg", "output_2.jpg"]);
    }
}
