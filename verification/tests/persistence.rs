// Saving and loading a project's persistent state.

use op_engine::{Clip, Project, ProjectError};

const U: i32 = 1_000_000;

#[test]
fn test_save_load_roundtrip() {
    let mut project = Project::new();
    let a = project.add_clip(Clip::new(vec![U, -U, 0]));
    let b = project.add_clip(Clip::new(vec![123, -456]));
    project.place_clip(0, 5, a);
    project.place_clip(2, 9, b);
    project.place_clip(2, 0, a);

    let text = project.save();
    let loaded = Project::load(&text).unwrap();

    assert_eq!(loaded.sample_rate, project.sample_rate);
    assert_eq!(
        loaded.timeline.tracks.len(),
        project.timeline.tracks.len()
    );
    for (lt, pt) in loaded
        .timeline
        .tracks
        .iter()
        .zip(project.timeline.tracks.iter())
    {
        assert_eq!(lt.iter_clips(), pt.iter_clips());
    }
    assert_eq!(loaded.clip_database.len(), project.clip_database.len());
    assert_eq!(
        loaded.clip_database.get(a).unwrap().data,
        project.clip_database.get(a).unwrap().data
    );
    assert_eq!(
        loaded.clip_database.get(b).unwrap().data,
        project.clip_database.get(b).unwrap().data
    );
}

#[test]
fn test_save_shape() {
    let project = Project::new();
    let text = String::from_utf8(project.save()).unwrap();
    assert_eq!(
        text,
        "{\"sample_rate\":44100,\"timeline\":{\"tracks\":[{\"clips\":[]},{\"clips\":[]},{\"clips\":[]},{\"clips\":[]}]},\"clip_database\":{\"clips\":[]}}"
    );
}

#[test]
fn test_load_rejects_malformed_text() {
    let text = b"{\"sample_rate\":oops".to_vec();
    match Project::load(&text) {
        Err(ProjectError::LoadProjectError { line, column }) => {
            assert_eq!(line, 1);
            assert!(column >= 1);
        },
        other => panic!("expected a load rejection, got {:?}", other),
    }
}

#[test]
fn test_load_rejects_trailing_text() {
    let mut text = Project::new().save();
    text.push(b' ');
    assert!(matches!(
        Project::load(&text),
        Err(ProjectError::LoadProjectError { .. })
    ));
}

#[test]
fn test_load_rebuilds_default_instrument() {
    let saved = Project::new().save();
    let loaded = Project::load(&saved).unwrap();
    assert_eq!(loaded.generator.sample_rate, 44100);
    assert_eq!(loaded.generator.phase, 0);
    assert!(!loaded.generator.on);
}
