use vmrss::output::json_escape;

#[test]
fn escapes_json_strings() {
    assert_eq!(json_escape("a\"b\\c\n"), "a\\\"b\\\\c\\n");
}

#[test]
fn escapes_control_characters() {
    assert_eq!(json_escape("\r\t"), "\\r\\t");
    assert_eq!(json_escape("\u{1}\u{1f}\u{7f}\u{9f}"), "\\u0001\\u001f\\u007f\\u009f");
    assert_eq!(json_escape("\u{a0}é漢"), "\u{a0}é漢");
    assert_eq!(json_escape(""), "");
    assert_eq!(json_escape("Google Chrome Helper (Renderer)"), "Google Chrome Helper (Renderer)");
}

#[test]
fn escaping_splits_over_concatenation() {
    let a = "x\"\u{2}";
    let b = "\\y\n";
    assert_eq!(json_escape(&format!("{a}{b}")), format!("{}{}", json_escape(a), json_escape(b)));
}

/// Reads back the inside of a JSON string with the escapes that
/// `json_escape` writes.
fn unescape(t: &str) -> String {
    let chars: Vec<char> = t.chars().collect();
    let mut out = String::new();
    let mut i = 0;
    while i < chars.len() {
        if chars[i] == '\\' && i + 1 < chars.len() {
            match chars[i + 1] {
                '"' => out.push('"'),
                '\\' => out.push('\\'),
                'n' => out.push('\n'),
                'r' => out.push('\r'),
                't' => out.push('\t'),
                'u' => {
                    let hex: String = chars[i + 2..i + 6].iter().collect();
                    out.push(char::from_u32(u32::from_str_radix(&hex, 16).unwrap()).unwrap());
                    i += 6;
                    continue;
                }
                other => panic!("unexpected escape {other}"),
            }
            i += 2;
        } else {
            out.push(chars[i]);
            i += 1;
        }
    }
    out
}

#[test]
fn escaped_text_reads_back() {
    for text in ["plain", "q\"uote", "back\\slash", "line\nfeed\r\t", "\u{0}\u{1b}[0m\u{85}", "é\u{7f}x"] {
        let escaped = json_escape(text);
        assert!(!escaped.chars().any(|c| c.is_control()));
        assert_eq!(unescape(&escaped), text);
    }
}
