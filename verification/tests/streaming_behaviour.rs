use voiceflow_core::formatting::streaming::{MergeEngine, StabilizationEngine, WindowBuilder, WindowPolicy};
use voiceflow_core::pipeline::changes::{Change, ChangeKind, ChangeSet, ChangeSource, Confidence, TextRange};

fn change(id: usize, kind: ChangeKind, start: usize, end: usize) -> Change {
    Change {
        id,
        kind,
        range: TextRange { start, end },
        source: ChangeSource::Rule("Test".to_string()),
        confidence: Confidence::Certain,
    }
}

#[test]
fn sentence_window_starts_after_last_terminator() {
    let builder = WindowBuilder::new(WindowPolicy::Sentence);
    let (start, window) = builder.build_window("Done. Next part", "here");
    assert_eq!(start, 5);
    assert_eq!(window, " Next part here");
}

#[test]
fn empty_buffer_window_is_the_delta() {
    let builder = WindowBuilder::new(WindowPolicy::Fixed(3));
    assert_eq!(builder.build_window("", "hi"), (0, "hi".to_string()));
}

#[test]
fn fixed_zero_words_takes_nothing() {
    let builder = WindowBuilder::new(WindowPolicy::Fixed(0));
    assert_eq!(builder.build_window("abc def", "x"), (7, "x".to_string()));
}

#[test]
fn adaptive_window_takes_ten_words_and_no_extra_space() {
    let builder = WindowBuilder::new(WindowPolicy::Adaptive);
    let (start, window) = builder.build_window("w1 w2 w3 w4 w5 w6 w7 w8 w9 w10 w11 ", "end");
    assert_eq!(start, 3);
    assert_eq!(window, "w2 w3 w4 w5 w6 w7 w8 w9 w10 w11 end");
}

#[test]
fn window_offsets_are_bytes() {
    let builder = WindowBuilder::new(WindowPolicy::Fixed(1));
    let (start, window) = builder.build_window("héllo wörld", "x");
    assert_eq!(start, 7);
    assert_eq!(window, "wörld x");
}

#[test]
fn merge_past_the_end_is_the_window() {
    let merger = MergeEngine::new();
    assert_eq!(merger.merge("abc", "xyz", 10), "xyz");
    assert_eq!(merger.merge("abc", "xyz", 1), "axyz");
}

#[test]
fn changeset_delete_and_move() {
    let engine = MergeEngine::new();
    let mut set = ChangeSet::new();
    set.add(change(0, ChangeKind::Delete, 0, 2));
    assert_eq!(engine.apply_changeset("abcdef", &set), "cdef");

    let mut moves = ChangeSet::new();
    moves.add(change(0, ChangeKind::Move { to_offset: 6 }, 0, 2));
    assert_eq!(engine.apply_changeset("abcdef", &moves), "cdefab");
}

#[test]
fn move_targets_are_offsets_of_the_text_before_the_move() {
    let engine = MergeEngine::new();
    let mut back = ChangeSet::new();
    back.add(change(0, ChangeKind::Move { to_offset: 1 }, 3, 5));
    assert_eq!(engine.apply_changeset("abcdef", &back), "adebcf");
    let mut forward = ChangeSet::new();
    forward.add(change(0, ChangeKind::Move { to_offset: 6 }, 3, 5));
    assert_eq!(engine.apply_changeset("abcdef", &forward), "abcfde");
    let mut inside = ChangeSet::new();
    inside.add(change(0, ChangeKind::Move { to_offset: 4 }, 3, 5));
    assert_eq!(engine.apply_changeset("abcdef", &inside), "abdecf");
}

#[test]
fn changeset_skips_changes_out_of_range() {
    let engine = MergeEngine::new();
    let mut set = ChangeSet::new();
    set.add(change(0, ChangeKind::Replace { replacement: "z".to_string() }, 5, 9));
    assert!(!set.is_empty());
    assert_eq!(engine.apply_changeset("abc", &set), "abc");
    assert!(ChangeSet::new().is_empty());
}

#[test]
fn stabilization() {
    let engine = StabilizationEngine::new(500);
    assert!(engine.is_stable("done.", 0));
    assert!(engine.is_stable("what?", 0));
    assert!(!engine.is_stable("wait", 499));
    assert!(engine.is_stable("wait", 500));
}

#[test]
fn unformatted_window_merges_back_to_the_joined_buffer() {
    let merger = MergeEngine::new();
    for policy in [WindowPolicy::Fixed(2), WindowPolicy::Sentence, WindowPolicy::Adaptive] {
        let builder = WindowBuilder::new(policy);
        let previous = "First part. héllo wörld again";
        let (start, window) = builder.build_window(previous, "more");
        assert_eq!(merger.merge(previous, &window, start), "First part. héllo wörld again more");
        let (start, window) = builder.build_window(previous, " spaced");
        assert_eq!(merger.merge(previous, &window, start), "First part. héllo wörld again spaced");
    }
}

#[test]
fn window_at_the_very_end_follows_the_buffer() {
    let builder = WindowBuilder::new(WindowPolicy::Sentence);
    let (start, window) = builder.build_window("Done.", "next");
    assert_eq!((start, window.as_str()), (5, "next"));
    assert_eq!(MergeEngine::new().merge("Done.", &window, start), "Done.next");
    let builder = WindowBuilder::new(WindowPolicy::Fixed(3));
    let (start, window) = builder.build_window("   ", "hi");
    assert_eq!(start, 3);
    assert_eq!(MergeEngine::new().merge("   ", &window, start), "   hi");
    assert_eq!(MergeEngine::new().merge("abc", "xyz", 3), "abcxyz");
}

#[test]
fn ascending_changes_land_at_their_places() {
    let engine = MergeEngine::new();
    let text = "héllo big wörld";
    let mut set = ChangeSet::new();
    set.add(change(0, ChangeKind::Replace { replacement: "HELLO".to_string() }, 0, 6));
    set.add(change(1, ChangeKind::Delete, 6, 10));
    set.add(change(2, ChangeKind::Insert { text: " new".to_string() }, 10, 10));
    set.add(change(3, ChangeKind::Replace { replacement: "world!".to_string() }, 11, 17));
    assert_eq!(engine.apply_changeset(text, &set), "HELLO new world!");
    assert_eq!(engine.apply_changeset(text, &ChangeSet::new()), text);
}
