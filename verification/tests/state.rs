use moq::tracks::{State, Subscription};
use moq::names::{str_eq, NameMap};
use moq::session::{
    accept_group, after_frame, completion, next_frame, Announced, Completion, Error, FrameProgress,
    GroupStep, Subscriptions,
};

#[test]
fn str_eq_compares_characters() {
    assert!(str_eq("abc", "abc"));
    assert!(!str_eq("abc", "abd"));
    assert!(!str_eq("abc", "ab"));
    assert!(str_eq("", ""));
    assert!(str_eq("é", "\u{e9}"));
}

#[test]
fn name_map_insert_get_remove() {
    let mut m: NameMap<u32> = NameMap::new();
    assert_eq!(m.len(), 0);
    assert_eq!(m.insert("a".to_string(), 1), None);
    assert_eq!(m.insert("b".to_string(), 2), None);
    assert_eq!(m.insert("a".to_string(), 3), Some(1));
    assert_eq!(m.len(), 2);
    assert_eq!(m.get("a"), Some(&3));
    assert_eq!(m.get("b"), Some(&2));
    assert_eq!(m.get("c"), None);
    assert!(m.contains("b"));
    assert_eq!(m.remove("a"), Some(3));
    assert_eq!(m.remove("a"), None);
    assert!(!m.contains("a"));
    assert_eq!(m.len(), 1);
}

#[test]
fn broadcast_prefers_published_tracks() {
    let mut s: State<&str, u32> = State::new();
    assert!(matches!(s.subscribe("cam"), Subscription::Unknown));
    assert_eq!(s.request("cam".to_string(), 7), None);
    assert!(matches!(s.subscribe("cam"), Subscription::Requested(&7)));
    assert_eq!(s.insert("cam".to_string(), "published"), None);
    assert!(matches!(s.subscribe("cam"), Subscription::Published(&"published")));
    assert_eq!(s.insert("cam".to_string(), "again"), Some("published"));
    assert_eq!(s.remove("cam"), Some("again"));
    assert!(matches!(s.subscribe("cam"), Subscription::Requested(&7)));
    assert_eq!(s.unrequest("cam"), Some(7));
    assert!(matches!(s.subscribe("cam"), Subscription::Unknown));
    assert_eq!(s.remove("cam"), None);
}

#[test]
fn announced_active_then_ended() {
    let mut a: Announced<u32> = Announced::new();
    assert_eq!(a.active("alice".to_string(), 1, true), Ok(()));
    assert_eq!(a.active("bob".to_string(), 2, false), Err(Error::Duplicate));
    assert_eq!(a.ended("bob"), Err(Error::NotFound));
    assert_eq!(a.ended("alice"), Ok(1));
    assert_eq!(a.ended("alice"), Err(Error::NotFound));
}

#[test]
fn subscriptions_ids_and_routing() {
    let mut s: Subscriptions<&str> = Subscriptions::new();
    let a = s.allocate_id();
    let b = s.allocate_id();
    assert_eq!((a, b), (0, 1));
    assert_eq!(s.insert(a, "video"), None);
    assert_eq!(s.insert(b, "audio"), None);
    assert_eq!(s.route(a), Ok(&"video"));
    assert_eq!(s.route(9), Err(Error::Cancel));
    assert_eq!(s.remove(a), Some("video"));
    assert_eq!(s.route(a), Err(Error::Cancel));
    assert_eq!(s.allocate_id(), 2);
}

#[test]
fn frame_progress_counts_down() {
    let mut f = FrameProgress::new(10);
    assert!(!f.is_complete());
    assert_eq!(f.read_limit(), 10);
    assert_eq!(f.accept(Some(4)), Ok(()));
    assert_eq!(f.read_limit(), 6);
    assert_eq!(f.accept(Some(7)), Err(Error::WrongSize));
    assert_eq!(f.read_limit(), 6);
    assert_eq!(f.accept(None), Err(Error::WrongSize));
    assert_eq!(f.accept(Some(6)), Ok(()));
    assert!(f.is_complete());
    let empty = FrameProgress::new(0);
    assert!(empty.is_complete());
}

#[test]
fn completion_finishes_or_aborts() {
    assert!(matches!(completion(Ok(())), Completion::Finish));
    assert!(matches!(completion(Err(Error::Cancel)), Completion::Abort(Error::Cancel)));
    assert!(matches!(completion(Err(Error::WrongSize)), Completion::Abort(Error::WrongSize)));
}

#[test]
fn group_steps() {
    assert_eq!(accept_group(Some(5u8)), Ok(5));
    assert_eq!(accept_group::<u8>(None), Err(Error::Old));
    assert!(matches!(next_frame(Some(12)), GroupStep::ReadFrame { size: 12 }));
    assert!(matches!(next_frame(None), GroupStep::Finish));
    assert!(after_frame(Ok(())).is_none());
    assert!(matches!(after_frame(Err(Error::Cancel)), Some(GroupStep::Stop(Error::Cancel))));
}

#[test]
fn fresh_session_ids_count_up_from_zero() {
    let mut s: Subscriptions<()> = Subscriptions::new();
    for expected in 0..100u64 {
        assert_eq!(s.allocate_id(), expected);
    }
}
