use punto_rs::keys::KEY_SPACE;
use punto_rs::state::{Buffer, Stroke};

/// `q w`: the letters q(16) and w(17).
fn filled() -> Buffer {
    let mut b = Buffer::new(64);
    b.push(16, false);
    b.push(KEY_SPACE, false);
    b.push(17, true);
    b
}

#[test]
fn last_word_takes_only_trailing_word() {
    let b = filled();
    assert_eq!(
        b.last_word(),
        &[Stroke {
            code: 17,
            shift: true
        }]
    );
}

#[test]
fn last_word_keeps_trailing_separators() {
    let mut b = filled();
    b.push(KEY_SPACE, false);
    let word = b.last_word();
    assert_eq!(word.len(), 2, "word and its trailing space");
    assert_eq!(word[0].code, 17);
    assert_eq!(word[1].code, KEY_SPACE);
}

#[test]
fn last_word_empty_when_only_separators() {
    let mut b = Buffer::new(64);
    b.push(KEY_SPACE, false);
    b.push(KEY_SPACE, false);
    assert!(b.last_word().is_empty());
}

#[test]
fn phrase_returns_everything() {
    assert_eq!(filled().phrase().len(), 3);
}

#[test]
fn backspace_pops_last_stroke() {
    let mut b = filled();
    b.backspace();
    assert_eq!(b.phrase().len(), 2);
}

#[test]
fn buffer_is_capped_and_drops_oldest() {
    let mut b = Buffer::new(2);
    b.push(16, false);
    b.push(17, false);
    b.push(18, false);
    assert_eq!(b.phrase().len(), 2);
    assert_eq!(b.phrase()[0].code, 17, "the oldest stroke is dropped");
}

#[test]
fn zero_capacity_keeps_one_stroke() {
    let mut b = Buffer::new(0);
    b.push(16, false);
    b.push(17, false);
    assert_eq!(b.phrase(), &[Stroke { code: 17, shift: false }]);
}

#[test]
fn backspace_on_empty_buffer_keeps_it_empty() {
    let mut b = Buffer::new(4);
    b.backspace();
    assert!(b.phrase().is_empty());
}

#[test]
fn clear_forgets_everything() {
    let mut b = filled();
    b.clear();
    assert!(b.phrase().is_empty());
    assert!(b.last_word().is_empty());
}

#[test]
fn last_word_stops_at_tab_separator() {
    let mut b = Buffer::new(8);
    b.push(16, false);
    b.push(15, false);
    b.push(17, false);
    b.push(18, true);
    assert_eq!(
        b.last_word(),
        &[Stroke { code: 17, shift: false }, Stroke { code: 18, shift: true }]
    );
}

#[test]
fn last_word_of_single_word_is_whole_buffer() {
    let mut b = Buffer::new(8);
    b.push(16, false);
    b.push(17, false);
    b.push(KEY_SPACE, false);
    assert_eq!(b.last_word().len(), 3);
}

#[test]
fn typing_then_erasing_restores_the_buffer() {
    let mut b = filled();
    let before = b.phrase().to_vec();
    b.push(18, true);
    b.backspace();
    assert_eq!(b.phrase(), &before[..]);
}
