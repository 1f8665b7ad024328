use vmrss::cli::{Config, OutputFormat};
use vmrss::duration::Duration;
use vmrss::output::{
    json_document, json_entry, json_process, process_line, text_document, total_line, vmrss_lines,
    Figures,
    ProcessRow,
};

fn config(monitor: bool, children: bool, all: bool) -> Config {
    Config {
        monitor,
        children,
        interval: Duration::from_secs(1),
        timeout: None,
        swap: all,
        cpu: all,
        peak: all,
        io: all,
        format: OutputFormat::Text,
        targets: Vec::new(),
    }
}

fn figures(memory: &str, peak: Option<&str>) -> Figures {
    Figures {
        memory: memory.to_string(),
        peak: peak.map(|p| p.to_string()),
        cpu: "0.5".to_string(),
        read: "0.10".to_string(),
        write: "0.20".to_string(),
        swap: "0.00".to_string(),
    }
}

fn row(pid: i32, name: &str, indent: usize, memory: &str) -> ProcessRow {
    ProcessRow { pid, name: name.to_string(), indent, figures: figures(memory, Some("9.00")) }
}

#[test]
fn lays_out_text_lines() {
    let plain = config(false, true, false);
    assert_eq!(process_line(&plain, &row(12, "Safari", 2, "1.50")), "  Safari(12): 1.50 MB");
    let all = config(false, true, true);
    assert_eq!(
        process_line(&all, &row(-3, "x", 0, "1.00")),
        "x(-3): 1.00 MB | peak: 9.00 MB | cpu: 0.5% | io: r 0.10 MB w 0.20 MB | swap: 0.00 MB"
    );
    let monitor = config(true, true, true);
    assert_eq!(
        total_line(&monitor, &figures("3.00", None)),
        "total: 3.00 MB | cpu: 0.5% | io: r 0.10 KB/s w 0.20 KB/s | swap: 0.00 MB"
    );
}

#[test]
fn shows_children_only_when_asked() {
    let rows = vec![row(1, "a", 0, "1.00"), row(2, "b", 2, "2.00"), row(3, "c", 4, "3.00")];
    let total = figures("6.00", None);
    assert_eq!(
        vmrss_lines(&config(false, true, false), 1, &rows, &total),
        vec!["a(1): 1.00 MB", "  b(2): 2.00 MB", "    c(3): 3.00 MB", "total: 6.00 MB"]
    );
    assert_eq!(
        vmrss_lines(&config(false, false, false), 1, &rows, &total),
        vec!["a(1): 1.00 MB", "total: 6.00 MB"]
    );
}

#[test]
fn lays_out_json_objects() {
    let plain = config(false, true, false);
    assert_eq!(
        json_process(&plain, &row(7, "a\"b", 0, "1.000000")),
        "{\"pid\":7,\"name\":\"a\\\"b\",\"memory_mb\":1.000000}"
    );
    let monitor = config(true, true, true);
    assert_eq!(
        json_process(&monitor, &row(7, "n", 0, "1")),
        "{\"pid\":7,\"name\":\"n\",\"memory_mb\":1,\"peak_memory_mb\":9.00,\"cpu_percent\":0.5,\"read_kb_per_sec\":0.10,\"write_kb_per_sec\":0.20,\"swap_mb\":0.00}"
    );
    let rows = vec![row(1, "a", 0, "1"), row(2, "b", 2, "2")];
    assert_eq!(
        json_entry(&plain, 1, &rows, &figures("3", None)),
        "{\"main_pid\":1,\"processes\":[{\"pid\":1,\"name\":\"a\",\"memory_mb\":1},{\"pid\":2,\"name\":\"b\",\"memory_mb\":2}],\"total_memory_mb\":3}"
    );
    let all = config(false, false, true);
    assert_eq!(
        json_entry(&all, 1, &rows, &figures("3", Some("4"))),
        "{\"main_pid\":1,\"processes\":[{\"pid\":1,\"name\":\"a\",\"memory_mb\":1,\"peak_memory_mb\":9.00,\"cpu_percent\":0.5,\"read_mb\":0.10,\"write_mb\":0.20,\"swap_mb\":0.00}],\"total_memory_mb\":3,\"peak_total_mb\":4,\"total_cpu_percent\":0.5,\"total_read_mb\":0.10,\"total_write_mb\":0.20,\"total_swap_mb\":0.00}"
    );
    assert_eq!(json_document(&vec![]), "[]");
    assert_eq!(json_document(&vec!["{}".to_string(), "{}".to_string()]), "[{},{}]");
}

#[test]
fn separates_trees_by_blank_lines() {
    let t = |ls: &[&str]| ls.iter().map(|l| l.to_string()).collect::<Vec<String>>();
    assert_eq!(text_document(&vec![]), Vec::<String>::new());
    assert_eq!(text_document(&vec![t(&["a", "total"])]), t(&["a", "total"]));
    assert_eq!(
        text_document(&vec![t(&["a", "total"]), t(&[]), t(&["b", "total"])]),
        t(&["a", "total", "", "", "b", "total"])
    );
    assert_eq!(text_document(&vec![t(&[]), t(&["b"])]), t(&["", "b"]));
}

// A small reader of RFC 8259 text without white space: the position after
// the value that starts at `i`, when one does.
fn json_value_end(t: &[char], i: usize) -> Option<usize> {
    match t.get(i)? {
        '{' => json_list_end(t, i + 1, '}', true),
        '[' => json_list_end(t, i + 1, ']', false),
        '"' => json_string_end(t, i + 1),
        _ => json_number_end(t, i),
    }
}

fn json_list_end(t: &[char], mut i: usize, close: char, members: bool) -> Option<usize> {
    if t.get(i) == Some(&close) {
        return Some(i + 1);
    }
    loop {
        if members {
            if t.get(i) != Some(&'"') {
                return None;
            }
            i = json_string_end(t, i + 1)?;
            if t.get(i) != Some(&':') {
                return None;
            }
            i += 1;
        }
        i = json_value_end(t, i)?;
        match t.get(i) {
            Some(',') => i += 1,
            Some(c) if *c == close => return Some(i + 1),
            _ => return None,
        }
    }
}

fn json_string_end(t: &[char], mut i: usize) -> Option<usize> {
    loop {
        match *t.get(i)? {
            '"' => return Some(i + 1),
            '\\' => match *t.get(i + 1)? {
                '"' | '\\' | '/' | 'b' | 'f' | 'n' | 'r' | 't' => i += 2,
                'u' => {
                    for k in 2..6 {
                        if !t.get(i + k)?.is_ascii_hexdigit() {
                            return None;
                        }
                    }
                    i += 6;
                }
                _ => return None,
            },
            c if (c as u32) < 0x20 => return None,
            _ => i += 1,
        }
    }
}

fn json_number_end(t: &[char], mut i: usize) -> Option<usize> {
    let digits = |t: &[char], mut i: usize| {
        let start = i;
        while t.get(i).map_or(false, |c| c.is_ascii_digit()) {
            i += 1;
        }
        if i > start { Some(i) } else { None }
    };
    if t.get(i) == Some(&'-') {
        i += 1;
    }
    let start = i;
    i = digits(t, i)?;
    if t[start] == '0' && i > start + 1 {
        return None;
    }
    if t.get(i) == Some(&'.') {
        i = digits(t, i + 1)?;
    }
    if matches!(t.get(i), Some('e') | Some('E')) {
        i += 1;
        if matches!(t.get(i), Some('+') | Some('-')) {
            i += 1;
        }
        i = digits(t, i)?;
    }
    Some(i)
}

fn is_json(s: &str) -> bool {
    let t: Vec<char> = s.chars().collect();
    json_value_end(&t, 0) == Some(t.len())
}

#[test]
fn json_output_is_json_when_figures_are_numbers() {
    let rows = vec![row(-3, "tab\there \"q\" \u{1}", 0, "1.5"), row(0, "\\", 2, "0")];
    for (monitor, children, all) in [(false, true, true), (true, true, true), (false, false, false)] {
        let c = config(monitor, children, all);
        let entry = json_entry(&c, -3, &rows, &figures("12.25", Some("1e3")));
        assert!(is_json(&entry), "{}", entry);
        let object = json_process(&c, &rows[0]);
        assert!(is_json(&object), "{}", object);
        let document = json_document(&vec![entry.clone(), entry]);
        assert!(is_json(&document), "{}", document);
    }
    assert!(!is_json(&json_process(&config(false, true, false), &row(1, "a", 0, "01"))));
}
