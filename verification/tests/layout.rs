use aries::browser::{StyledText, TextLine, TextStyle};
use aries::layout::{
    calculate_wrapped_height, center_vertically, centered_rect, centering_percentages, checked_wrapped_height,
    cursor_position, footer_area, input_text_width, message_area, middle_segment, Area,
};

fn area(x: u16, y: u16, width: u16, height: u16) -> Area {
    Area { x, y, width, height }
}

fn line(texts: &[&str]) -> TextLine {
    TextLine {
        spans: texts
            .iter()
            .map(|t| StyledText { text: t.to_string(), style: TextStyle::Text })
            .collect(),
    }
}

#[test]
fn centered_popup() {
    assert_eq!(centered_rect(70, 30, area(0, 0, 100, 100)), area(15, 35, 70, 30));
    assert_eq!(centered_rect(100, 100, area(2, 3, 40, 20)), area(2, 3, 40, 20));
}

#[test]
fn popup_percentages() {
    assert_eq!(centering_percentages(70), (15, 70, 15));
    assert_eq!(centering_percentages(31), (34, 31, 34));
    assert_eq!(centering_percentages(100), (0, 100, 0));
}

#[test]
fn vertical_centering() {
    assert_eq!(center_vertically(area(0, 2, 80, 40), 10), area(0, 17, 80, 10));
    assert_eq!(center_vertically(area(0, 2, 80, 4), 10), area(0, 2, 80, 10));
}

#[test]
fn footer_row() {
    assert_eq!(footer_area(area(0, 0, 80, 24)), area(1, 22, 80, 1));
}

#[test]
fn message_row() {
    assert_eq!(message_area(area(0, 0, 80, 24), area(0, 5, 80, 6), 20), area(30, 11, 80, 1));
}

#[test]
fn url_box() {
    assert_eq!(input_text_width(64), 61);
    assert_eq!(input_text_width(2), 0);
    assert_eq!(cursor_position(area(8, 1, 64, 3), 5, 0), (14, 2));
    assert_eq!(cursor_position(area(8, 1, 64, 3), 5, 7), (9, 2));
}

#[test]
fn wrapped_height() {
    let lines = vec![line(&[]), line(&["abc", "de"]), line(&["x".repeat(21).as_str()]), line(&["é"])];
    // 1 + ceil(5/10) + ceil(21/10) + ceil(1/10)
    assert_eq!(calculate_wrapped_height(&lines, 10), 1 + 1 + 3 + 1);
    assert_eq!(checked_wrapped_height(&lines, 10), Some(6));
    assert_eq!(checked_wrapped_height(&lines, 0), None);
    assert_eq!(checked_wrapped_height(&vec![line(&[]), line(&[""])], 0), Some(2));
}

#[test]
fn wrapped_height_truncates_width() {
    // A line of 65536 characters counts as 0 after the cast to 16 bits.
    let long = "a".repeat(65536);
    let lines = vec![line(&[long.as_str()])];
    assert_eq!(checked_wrapped_height(&lines, 10), Some(0));
}

#[test]
fn wrapped_height_overflow() {
    let lines: Vec<TextLine> = (0..65536).map(|_| line(&[])).collect();
    assert_eq!(checked_wrapped_height(&lines, 10), None);
}

#[test]
fn centered_popup_stays_inside() {
    for (w, h) in [(0u16, 0u16), (1, 1), (7, 3), (80, 24), (333, 101)] {
        let outer = area(3, 4, w, h);
        let c = centered_rect(70, 30, outer);
        assert!(c.x >= outer.x && c.x + c.width <= outer.x + outer.width, "{c:?} in {outer:?}");
        assert!(c.y >= outer.y && c.y + c.height <= outer.y + outer.height, "{c:?} in {outer:?}");
    }
}

#[test]
fn middle_of_three() {
    let parts = vec![area(0, 0, 1, 1), area(1, 2, 3, 4), area(5, 5, 5, 5)];
    assert_eq!(middle_segment(&parts), area(1, 2, 3, 4));
}

#[test]
fn centered_popup_odd_sizes() {
    assert_eq!(centered_rect(70, 30, area(0, 0, 80, 24)), area(12, 8, 56, 8));
}
