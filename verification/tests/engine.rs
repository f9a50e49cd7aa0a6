// The track and mix behavior, exercised on concrete placements. Sample
// amplitudes are fixed point: 1_000_000 is full scale 1.0.

use op_engine::track::ClipInstance;
use op_engine::{mix, Clip, ClipDatabase, Track};

const U: i32 = 1_000_000;

fn clip(db: &mut ClipDatabase, data: Vec<i32>) -> op_engine::ClipId {
    db.add(Clip::new(data))
}

#[test]
fn test_mix() {
    let c1 = vec![U, U, U, U];
    let c2 = vec![U, U, U];
    let c3 = vec![U, U];
    let c4 = vec![U];
    let sources = vec![c1, c2, c3, c4];
    let mut result = vec![0i32; 5];
    mix(&sources, &mut result);
    // Sums above full scale clamp to full scale.
    assert_eq!(result, vec![U, U, U, U, 0]);
}

#[test]
fn test_add_clip() {
    let mut track = Track::new();
    let mut db = ClipDatabase::new();

    let clip_1 = clip(&mut db, vec![U]);
    let result = track.instantiate_clip(clip_1, 0);
    assert_eq!(clip_1, result.clip_id);

    let clip_2 = clip(&mut db, vec![2 * U]);
    let result = track.instantiate_clip(clip_2, 1);
    assert_eq!(clip_2, result.clip_id);
}

#[test]
fn test_last_clip() {
    let mut track = Track::new();
    let mut db = ClipDatabase::new();

    assert!(
        track.last_clip(&db).is_none(),
        "last clip must be None when track does not contain clips"
    );

    let c = clip(&mut db, vec![U]);
    track.instantiate_clip(c, 0);
    let last_clip = track
        .last_clip(&db)
        .expect("last clip must be present when track contains clips");
    assert_eq!(c, last_clip.clip_id);

    let c = clip(&mut db, vec![2 * U]);
    track.instantiate_clip(c, 2);
    let last_clip = track
        .last_clip(&db)
        .expect("last clip must be present when track contains clips");
    assert_eq!(c, last_clip.clip_id);

    let c = clip(&mut db, vec![3 * U; 10]);
    track.instantiate_clip(c, 0);
    let last_clip = track
        .last_clip(&db)
        .expect("last clip must be present when track contains clips");
    assert_eq!(c, last_clip.clip_id);
}

#[test]
fn test_clip_at() {
    let mut track = Track::new();
    let mut db = ClipDatabase::new();

    assert!(track.clip_at(&db, 0).is_none());

    let c = clip(&mut db, vec![U, U]);
    track.instantiate_clip(c, 0);

    assert_eq!(c, track.clip_at(&db, 0).unwrap().clip_id);
    assert_eq!(c, track.clip_at(&db, 1).unwrap().clip_id);
    assert!(track.clip_at(&db, 2).is_none());

    let short_clip = clip(&mut db, vec![2 * U]);
    track.instantiate_clip(short_clip, 1);

    assert_eq!(c, track.clip_at(&db, 0).unwrap().clip_id);
    assert_eq!(
        short_clip,
        track.clip_at(&db, 1).unwrap().clip_id,
        "latest added clip should take precedence when overlapping"
    );
    assert!(track.clip_at(&db, 2).is_none());
}

#[test]
fn test_next_clip() {
    let mut track = Track::new();
    let mut db = ClipDatabase::new();

    assert!(track.next_clip(0).is_none());

    let c = clip(&mut db, vec![U, U]);
    track.instantiate_clip(c, 0);
    assert!(
        track.next_clip(0).is_none(),
        "next_clip should not return clips where start <= t < end"
    );

    let c = clip(&mut db, vec![2 * U]);
    track.instantiate_clip(c, 3);
    let result = track.next_clip(0).unwrap();
    assert_eq!(3, result.time);
    assert_eq!(c, result.clip_id);
    assert!(track.next_clip(3).is_none());

    let c = clip(&mut db, vec![3 * U]);
    track.instantiate_clip(c, 1);
    let result = track.next_clip(0).unwrap();
    assert_eq!(1, result.time);
    assert_eq!(c, result.clip_id);

    assert!(track.next_clip(1234).is_none());
}

#[test]
fn test_render() {
    {
        let track = Track::new();
        let db = ClipDatabase::new();
        let mut buf = vec![0i32; 4];
        track.render(&db, 0, &mut buf);
        assert_eq!(buf, vec![0; 4]);
    }

    // clip that matches window exactly
    {
        let mut track = Track::new();
        let mut db = ClipDatabase::new();
        let mut buf = vec![0i32; 4];
        let c = clip(&mut db, vec![U; 4]);
        track.instantiate_clip(c, 0);
        track.render(&db, 0, &mut buf);
        assert_eq!(buf, vec![U; 4]);
    }

    // window expands past clip on right
    {
        let mut track = Track::new();
        let mut db = ClipDatabase::new();
        let mut buf = vec![0i32; 4];
        let c = clip(&mut db, vec![U; 4]);
        track.instantiate_clip(c, 0);
        track.render(&db, 2, &mut buf);
        assert_eq!(buf, vec![U, U, 0, 0]);
    }

    // window expands past clip on left
    {
        let mut track = Track::new();
        let mut db = ClipDatabase::new();
        let mut buf = vec![0i32; 4];
        let c = clip(&mut db, vec![U; 4]);
        track.instantiate_clip(c, 2);
        track.render(&db, 0, &mut buf);
        assert_eq!(buf, vec![0, 0, U, U]);
    }

    // window expands past clip on both sides
    {
        let mut track = Track::new();
        let mut db = ClipDatabase::new();
        let mut buf = vec![0i32; 6];
        let c = clip(&mut db, vec![U; 2]);
        track.instantiate_clip(c, 2);
        track.render(&db, 0, &mut buf);
        assert_eq!(buf, vec![0, 0, U, U, 0, 0]);
    }

    // window beyond all clips
    {
        let mut track = Track::new();
        let mut db = ClipDatabase::new();
        let mut buf = vec![0i32; 4];
        let c = clip(&mut db, vec![U; 2]);
        track.instantiate_clip(c, 2);
        track.render(&db, 100, &mut buf);
        assert_eq!(buf, vec![0; 4]);
    }

    // window containing multiple clips
    {
        let mut track = Track::new();
        let mut db = ClipDatabase::new();
        let mut buf = vec![0i32; 3];
        let c1 = clip(&mut db, vec![U]);
        track.instantiate_clip(c1, 0);
        let c2 = clip(&mut db, vec![2 * U]);
        track.instantiate_clip(c2, 2);
        track.render(&db, 0, &mut buf);
        assert_eq!(buf, vec![U, 0, 2 * U]);
    }

    // window containing multiple clips past bounds
    {
        let mut track = Track::new();
        let mut db = ClipDatabase::new();
        let mut buf = vec![0i32; 3];
        let c1 = clip(&mut db, vec![U; 2]);
        track.instantiate_clip(c1, 0);
        let c2 = clip(&mut db, vec![2 * U; 2]);
        track.instantiate_clip(c2, 3);
        track.render(&db, 1, &mut buf);
        assert_eq!(buf, vec![U, 0, 2 * U]);
    }

    // window containing multiple overlapping clips
    {
        let mut track = Track::new();
        let mut db = ClipDatabase::new();
        let mut buf = vec![0i32; 6];
        let c1 = clip(&mut db, vec![U; 4]);
        track.instantiate_clip(c1, 0);
        let c2 = clip(&mut db, vec![2 * U; 4]);
        track.instantiate_clip(c2, 2);
        track.render(&db, 0, &mut buf);
        assert_eq!(buf, vec![U, U, 2 * U, 2 * U, 2 * U, 2 * U]);
    }

    // window containing short overlapping clip: the later clip dominates
    // from its start onward and truncates into silence past its end
    {
        let mut track = Track::new();
        let mut db = ClipDatabase::new();
        let mut buf = vec![0i32; 6];
        let c1 = clip(&mut db, vec![U; 6]);
        track.instantiate_clip(c1, 0);
        let c2 = clip(&mut db, vec![2 * U; 2]);
        track.instantiate_clip(c2, 2);
        track.render(&db, 0, &mut buf);
        assert_eq!(buf, vec![U, U, 2 * U, 2 * U, 0, 0]);
    }
}

#[test]
fn test_move_clip() {
    let mut track = Track::new();
    let mut db = ClipDatabase::new();
    let c = clip(&mut db, vec![U]);
    track.instantiate_clip(c, 10);

    track.move_clip(c, 5);
    assert_eq!(15, track.iter_clips()[0].time);

    // A drag past the origin clamps to the first sample.
    track.move_clip(c, -100);
    assert_eq!(0, track.iter_clips()[0].time);
}

#[test]
fn test_instance_accessors() {
    let mut db = ClipDatabase::new();
    let c = clip(&mut db, vec![U, U, U]);
    let inst = ClipInstance { time: 5, clip_id: c };
    assert_eq!(5, inst.start());
    assert_eq!(Some(3), inst.len(&db));
    assert_eq!(Some(8), inst.end(&db));

    let mut track = Track::new();
    track.instantiate_clip(c, 5);
    assert_eq!(8, track.len(&db));
    assert_eq!(vec![U, U, U], track.render_all(&db)[5..8].to_vec());
}
