use sylo::charset::CharSet;
use sylo::lex::Command;
use sylo::regex::{literal, RegEx};
use sylo::scanning::ArrayScanningTable;

fn table() -> ArrayScanningTable {
    let letter = RegEx::set(CharSet::range(b'a', b'z'));
    ArrayScanningTable::new(&vec![literal("if"), letter.plus(), literal(" ")], vec![Command::Emit, Command::Emit, Command::Skip])
}

fn scan(t: &ArrayScanningTable, text: &str) -> Option<usize> {
    let mut state = 0;
    for b in text.bytes() {
        if state == t.sink() {
            break;
        }
        state = t.step(state, b);
    }
    t.class(state)
}

#[test]
fn scanning_table_classes() {
    let t = table();
    assert_eq!(scan(&t, "if"), Some(0));
    assert_eq!(scan(&t, "i"), Some(1));
    assert_eq!(scan(&t, "iff"), Some(1));
    assert_eq!(scan(&t, "abc"), Some(1));
    assert_eq!(scan(&t, " "), Some(2));
    assert_eq!(scan(&t, ""), None);
    assert_eq!(scan(&t, "a1"), None);
    assert_eq!(scan(&t, "  "), None);
}

#[test]
fn scanning_table_sink_and_commands() {
    let t = table();
    let sink = t.sink();
    assert_eq!(t.class(sink), None);
    assert_eq!(t.step(0, b'1'), sink);
    assert_eq!(t.command(0), Command::Emit);
    assert_eq!(t.command(2), Command::Skip);
}
