//! How results are written: text inside JSON strings, and the layout of
//! the text lines and JSON objects of a process tree.
use vstd::prelude::*;
use crate::cli::{Config, ConfigModel};
use crate::decimal::{format_i32, i32_text};
use crate::text::{chars_of, join_strings, join_with, push_char, string_views};

verus! {

/// A control character: Unicode's general category Cc, the code points
/// U+0000 to U+001F and U+007F to U+009F.
pub open spec fn is_control(c: char) -> bool {
    (c as u32) <= 0x1f || (0x7f <= (c as u32) && (c as u32) <= 0x9f)
}

/// The lower-case hexadecimal digits.
pub open spec fn hex_digits() -> Seq<char> {
    seq!['0', '1', '2', '3', '4', '5', '6', '7', '8', '9', 'a', 'b', 'c', 'd', 'e', 'f']
}

/// The four lower-case hexadecimal digits of a code point below 0x10000.
pub open spec fn hex4(n: nat) -> Seq<char> {
    seq![
        hex_digits()[((n / 4096) % 16) as int],
        hex_digits()[((n / 256) % 16) as int],
        hex_digits()[((n / 16) % 16) as int],
        hex_digits()[(n % 16) as int],
    ]
}

/// How one character is written inside a JSON string.
pub open spec fn escape_char(c: char) -> Seq<char> {
    if c == '"' {
        seq!['\\', '"']
    } else if c == '\\' {
        seq!['\\', '\\']
    } else if c == '\n' {
        seq!['\\', 'n']
    } else if c == '\r' {
        seq!['\\', 'r']
    } else if c == '\t' {
        seq!['\\', 't']
    } else if is_control(c) {
        seq!['\\', 'u'] + hex4(c as nat)
    } else {
        seq![c]
    }
}

/// The text `s` written inside a JSON string: each character escaped in turn.
pub open spec fn json_escaped(s: Seq<char>) -> Seq<char>
    decreases s.len(),
{
    if s.len() == 0 {
        Seq::empty()
    } else {
        json_escaped(s.drop_last()) + escape_char(s.last())
    }
}

/// The hexadecimal digit of `d`.
fn hex_digit(d: u32) -> (c: char)
    requires
        d < 16,
    ensures
        c == hex_digits()[d as int],
{
    let digits = ['0', '1', '2', '3', '4', '5', '6', '7', '8', '9', 'a', 'b', 'c', 'd', 'e', 'f'];
    assert(digits@ =~= hex_digits());
    digits[d as usize]
}

/// Appends `tail` to `out`, one character at a time.
fn push_all(out: &mut String, tail: &[char])
    ensures
        final(out)@ == old(out)@ + tail@,
{
    let mut i: usize = 0;
    while i < tail.len()
        invariant
            i <= tail.len(),
            out@ == old(out)@ + tail@.take(i as int),
        decreases tail.len() - i,
    {
        push_char(out, tail[i]);
        assert(tail@.take(i + 1) =~= tail@.take(i as int).push(tail@[i as int]));
        i += 1;
    }
    assert(tail@.take(tail.len() as int) =~= tail@);
}

/// Appends the escaped form of `c` to `out`.
fn push_escaped(out: &mut String, c: char)
    ensures
        final(out)@ == old(out)@ + escape_char(c),
{
    if c == '"' {
        let t = ['\\', '"'];
        assert(t@ =~= seq!['\\', '"']);
        push_all(out, &t);
    } else if c == '\\' {
        let t = ['\\', '\\'];
        assert(t@ =~= seq!['\\', '\\']);
        push_all(out, &t);
    } else if c == '\n' {
        let t = ['\\', 'n'];
        assert(t@ =~= seq!['\\', 'n']);
        push_all(out, &t);
    } else if c == '\r' {
        let t = ['\\', 'r'];
        assert(t@ =~= seq!['\\', 'r']);
        push_all(out, &t);
    } else if c == '\t' {
        let t = ['\\', 't'];
        assert(t@ =~= seq!['\\', 't']);
        push_all(out, &t);
    } else {
        let n = c as u32;
        if n <= 0x1f || (0x7f <= n && n <= 0x9f) {
            let t = [
                '\\',
                'u',
                hex_digit((n / 4096) % 16),
                hex_digit((n / 256) % 16),
                hex_digit((n / 16) % 16),
                hex_digit(n % 16),
            ];
            assert(t@ =~= seq!['\\', 'u'] + hex4(c as nat));
            push_all(out, &t);
        } else {
            push_char(out, c);
            assert(seq![c] =~= Seq::<char>::empty().push(c));
        }
    }
}

/// `value` written inside a JSON string: quotes, backslashes and control
/// characters escaped.
pub fn json_escape(value: &str) -> (escaped: String)
    ensures
        escaped@ == json_escaped(value@),
{
    let v = chars_of(value);
    let mut escaped = String::new();
    let mut i: usize = 0;
    while i < v.len()
        invariant
            i <= v.len(),
            escaped@ == json_escaped(v@.take(i as int)),
        decreases v.len() - i,
    {
        let ghost before = v@.take(i as int);
        push_escaped(&mut escaped, v[i]);
        assert(v@.take(i + 1).drop_last() =~= before);
        i += 1;
    }
    assert(v@.take(v.len() as int) =~= v@);
    escaped
}

/// The value of a hexadecimal digit character, upper or lower case.
pub open spec fn hex_value(c: char) -> Option<nat> {
    if '0' <= c && c <= '9' {
        Some((c as int - '0' as int) as nat)
    } else if 'a' <= c && c <= 'f' {
        Some((c as int - 'a' as int + 10) as nat)
    } else if 'A' <= c && c <= 'F' {
        Some((c as int - 'A' as int + 10) as nat)
    } else {
        None
    }
}

/// The code unit that four hexadecimal digits write.
pub open spec fn hex4_value(t: Seq<char>) -> Option<nat> {
    match (hex_value(t[0]), hex_value(t[1]), hex_value(t[2]), hex_value(t[3])) {
        (Some(a), Some(b), Some(c), Some(d)) => Some(a * 4096 + b * 256 + c * 16 + d),
        _ => None,
    }
}

/// The text that the inside of a JSON string `t` stands for: each escape
/// sequence (`\"`, `\\`, `\n`, `\r`, `\t`, `\u` and four hexadecimal
/// digits of a code point) read as the character it names, every other
/// character as itself.
pub open spec fn json_unescaped(t: Seq<char>) -> Seq<char>
    decreases t.len(),
{
    if t.len() == 0 {
        Seq::empty()
    } else if t[0] == '\\' && t.len() >= 2 && t[1] == '"' {
        seq!['"'] + json_unescaped(t.skip(2))
    } else if t[0] == '\\' && t.len() >= 2 && t[1] == '\\' {
        seq!['\\'] + json_unescaped(t.skip(2))
    } else if t[0] == '\\' && t.len() >= 2 && t[1] == 'n' {
        seq!['\n'] + json_unescaped(t.skip(2))
    } else if t[0] == '\\' && t.len() >= 2 && t[1] == 'r' {
        seq!['\r'] + json_unescaped(t.skip(2))
    } else if t[0] == '\\' && t.len() >= 2 && t[1] == 't' {
        seq!['\t'] + json_unescaped(t.skip(2))
    } else if t[0] == '\\' && t.len() >= 6 && t[1] == 'u' && hex4_value(t.subrange(2, 6)) is Some {
        seq![(hex4_value(t.subrange(2, 6))->0) as char] + json_unescaped(t.skip(6))
    } else {
        seq![t[0]] + json_unescaped(t.skip(1))
    }
}

/// Escaping a concatenation escapes each part.
pub proof fn lemma_json_escaped_concat(a: Seq<char>, b: Seq<char>)
    ensures
        json_escaped(a + b) == json_escaped(a) + json_escaped(b),
    decreases b.len(),
{
    if b.len() == 0 {
        assert(a + b =~= a);
        assert(json_escaped(a) + json_escaped(b) =~= json_escaped(a));
    } else {
        lemma_json_escaped_concat(a, b.drop_last());
        assert((a + b).drop_last() =~= a + b.drop_last());
        assert((a + b).last() == b.last());
        assert(json_escaped(a + b) =~= json_escaped(a) + json_escaped(b));
    }
}

/// The hexadecimal digits of a code point below 0x10000 read back as it.
proof fn lemma_hex4_round_trip(n: nat)
    requires
        n < 0x10000,
    ensures
        hex4_value(hex4(n)) == Some(n),
{
    let d3 = (n / 4096) % 16;
    let d2 = (n / 256) % 16;
    let d1 = (n / 16) % 16;
    let d0 = n % 16;
    assert forall|d: nat| d < 16 implies hex_value(#[trigger] hex_digits()[d as int]) == Some(d) by {
        if d < 10 {
            assert(hex_digits()[d as int] as int == '0' as int + d);
        } else {
            assert(hex_digits()[d as int] as int == 'a' as int + d - 10);
        }
    }
    assert(hex4(n)[0] == hex_digits()[d3 as int]);
    assert(hex4(n)[1] == hex_digits()[d2 as int]);
    assert(hex4(n)[2] == hex_digits()[d1 as int]);
    assert(hex4(n)[3] == hex_digits()[d0 as int]);
    assert(d3 * 4096 + d2 * 256 + d1 * 16 + d0 == n) by (nonlinear_arith)
        requires
            n < 0x10000,
            d3 == (n / 4096) % 16,
            d2 == (n / 256) % 16,
            d1 == (n / 16) % 16,
            d0 == n % 16,
    ;
}

/// Reading back the escaped form of one character gives the character.
proof fn lemma_unescape_char(c: char, rest: Seq<char>)
    ensures
        json_unescaped(escape_char(c) + rest) == seq![c] + json_unescaped(rest),
{
    let e = escape_char(c);
    let t = e + rest;
    if c == '"' || c == '\\' || c == '\n' || c == '\r' || c == '\t' {
        assert(t.skip(2) =~= rest);
        assert(t[0] == '\\');
    } else if is_control(c) {
        lemma_hex4_round_trip(c as nat);
        assert(t.subrange(2, 6) =~= hex4(c as nat));
        assert(t.skip(6) =~= rest);
        assert(t[0] == '\\' && t[1] == 'u');
        assert(((c as nat) as char) == c);
    } else {
        assert(t.skip(1) =~= rest);
        assert(t[0] == c);
        assert(c != '\\');
    }
}

/// Law of escaping: the escaped text, read as the inside of a JSON string,
/// stands for the text that was escaped.
pub proof fn lemma_json_escape_round_trip(s: Seq<char>)
    ensures
        json_unescaped(json_escaped(s)) == s,
    decreases s.len(),
{
    if s.len() > 0 {
        let rest = s.drop_first();
        assert(s =~= seq![s[0]] + rest);
        lemma_json_escaped_concat(seq![s[0]], rest);
        let one = seq![s[0]];
        assert(one.len() == 1);
        assert(one.drop_last() =~= Seq::<char>::empty());
        assert(one.last() == s[0]);
        assert(json_escaped(one.drop_last()) == Seq::<char>::empty());
        assert(json_escaped(one) =~= escape_char(s[0]));
        lemma_unescape_char(s[0], json_escaped(rest));
        lemma_json_escape_round_trip(rest);
    }
}

/// Law of escaping: the escaped text holds no control character, so it can
/// stand inside a JSON string.
pub proof fn lemma_json_escaped_has_no_control(s: Seq<char>)
    ensures
        forall|i: int| 0 <= i < json_escaped(s).len() ==> !is_control(#[trigger] json_escaped(s)[i]),
    decreases s.len(),
{
    if s.len() > 0 {
        lemma_json_escaped_has_no_control(s.drop_last());
        let e = escape_char(s.last());
        let before = json_escaped(s.drop_last());
        assert forall|i: int| 0 <= i < e.len() implies !is_control(#[trigger] e[i]) by {
            if is_control(s.last()) && s.last() != '\n' && s.last() != '\r' && s.last() != '\t' {
                assert forall|d: int| 0 <= d < 16 implies !is_control(#[trigger] hex_digits()[d]) by {}
            }
        }
        assert forall|i: int| 0 <= i < json_escaped(s).len() implies !is_control(#[trigger] json_escaped(s)[i]) by {
            if i < before.len() {
                assert(json_escaped(s)[i] == before[i]);
            } else {
                assert(json_escaped(s)[i] == e[i - before.len()]);
            }
        }
    }
}

/// The figures of one process, or of the total of a tree, each already
/// written as the output shows it.
pub struct Figures {
    /// Resident memory.
    pub memory: String,
    /// The peak memory, when one was seen.
    pub peak: Option<String>,
    /// CPU share.
    pub cpu: String,
    /// Disk reads.
    pub read: String,
    /// Disk writes.
    pub write: String,
    /// Swapped memory.
    pub swap: String,
}

/// The figures as character sequences.
pub struct FiguresModel {
    pub memory: Seq<char>,
    pub peak: Option<Seq<char>>,
    pub cpu: Seq<char>,
    pub read: Seq<char>,
    pub write: Seq<char>,
    pub swap: Seq<char>,
}

impl View for Figures {
    type V = FiguresModel;

    open spec fn view(&self) -> FiguresModel {
        FiguresModel {
            memory: self.memory@,
            peak: match self.peak {
                Some(p) => Some(p@),
                None => None,
            },
            cpu: self.cpu@,
            read: self.read@,
            write: self.write@,
            swap: self.swap@,
        }
    }
}

/// One process of a tree, as it is shown.
pub struct ProcessRow {
    pub pid: i32,
    pub name: String,
    /// Columns of indent: two per level below the tree's root.
    pub indent: usize,
    pub figures: Figures,
}

/// A row as plain values.
pub struct RowModel {
    pub pid: i32,
    pub name: Seq<char>,
    pub indent: nat,
    pub figures: FiguresModel,
}

impl View for ProcessRow {
    type V = RowModel;

    open spec fn view(&self) -> RowModel {
        RowModel { pid: self.pid, name: self.name@, indent: self.indent as nat, figures: self.figures@ }
    }
}

/// The rows as plain values.
pub open spec fn row_views(rows: Seq<ProcessRow>) -> Seq<RowModel> {
    rows.map_values(|r: ProcessRow| r@)
}

/// The rows that are shown: all of them when children are shown, else
/// the tree's root alone.
pub open spec fn shown_rows(c: ConfigModel, main_pid: i32, rows: Seq<RowModel>) -> Seq<RowModel> {
    rows.filter(|r: RowModel| c.children || r.pid == main_pid)
}

/// The text after the memory figure of a line: the peak (when asked for and
/// seen), CPU share, disk I/O (per second in monitor mode) and swap, each
/// when asked for.
pub open spec fn text_figures(c: ConfigModel, f: FiguresModel) -> Seq<char> {
    (if c.peak && f.peak is Some {
        " | peak: "@ + f.peak->0 + " MB"@
    } else {
        Seq::empty()
    }) + (if c.cpu {
        " | cpu: "@ + f.cpu + "%"@
    } else {
        Seq::empty()
    }) + (if c.io {
        if c.monitor {
            " | io: r "@ + f.read + " KB/s w "@ + f.write + " KB/s"@
        } else {
            " | io: r "@ + f.read + " MB w "@ + f.write + " MB"@
        }
    } else {
        Seq::empty()
    }) + (if c.swap {
        " | swap: "@ + f.swap + " MB"@
    } else {
        Seq::empty()
    })
}

/// The text line of one process: indented, its name and id, its memory,
/// then the other figures.
pub open spec fn process_text(c: ConfigModel, r: RowModel) -> Seq<char> {
    Seq::new(r.indent, |i: int| ' ') + r.name + "("@ + i32_text(r.pid) + "): "@ + r.figures.memory
        + " MB"@ + text_figures(c, r.figures)
}

/// The text line of the total of a tree.
pub open spec fn total_text(c: ConfigModel, t: FiguresModel) -> Seq<char> {
    "total: "@ + t.memory + " MB"@ + text_figures(c, t)
}

/// The text lines of a tree: one per shown process, then the total.
pub open spec fn text_report(c: ConfigModel, main_pid: i32, rows: Seq<RowModel>, total: FiguresModel) -> Seq<Seq<char>> {
    shown_rows(c, main_pid, rows).map_values(|r: RowModel| process_text(c, r)).push(total_text(c, total))
}

/// The JSON members after the memory of one process.
pub open spec fn json_process_figures(c: ConfigModel, f: FiguresModel) -> Seq<char> {
    (if c.peak && f.peak is Some {
        ",\"peak_memory_mb\":"@ + f.peak->0
    } else {
        Seq::empty()
    }) + (if c.cpu {
        ",\"cpu_percent\":"@ + f.cpu
    } else {
        Seq::empty()
    }) + (if c.io {
        if c.monitor {
            ",\"read_kb_per_sec\":"@ + f.read + ",\"write_kb_per_sec\":"@ + f.write
        } else {
            ",\"read_mb\":"@ + f.read + ",\"write_mb\":"@ + f.write
        }
    } else {
        Seq::empty()
    }) + (if c.swap {
        ",\"swap_mb\":"@ + f.swap
    } else {
        Seq::empty()
    })
}

/// The JSON members after the memory of the total of a tree.
pub open spec fn json_total_figures(c: ConfigModel, f: FiguresModel) -> Seq<char> {
    (if c.peak && f.peak is Some {
        ",\"peak_total_mb\":"@ + f.peak->0
    } else {
        Seq::empty()
    }) + (if c.cpu {
        ",\"total_cpu_percent\":"@ + f.cpu
    } else {
        Seq::empty()
    }) + (if c.io {
        if c.monitor {
            ",\"total_read_kb_per_sec\":"@ + f.read + ",\"total_write_kb_per_sec\":"@ + f.write
        } else {
            ",\"total_read_mb\":"@ + f.read + ",\"total_write_mb\":"@ + f.write
        }
    } else {
        Seq::empty()
    }) + (if c.swap {
        ",\"total_swap_mb\":"@ + f.swap
    } else {
        Seq::empty()
    })
}

/// The JSON object of one process.
pub open spec fn json_process_text(c: ConfigModel, r: RowModel) -> Seq<char> {
    "{\"pid\":"@ + i32_text(r.pid) + ",\"name\":\""@ + json_escaped(r.name) + "\",\"memory_mb\":"@
        + r.figures.memory + json_process_figures(c, r.figures) + "}"@
}

/// The JSON object of a tree: its root, its shown processes, its totals.
pub open spec fn json_entry_text(c: ConfigModel, main_pid: i32, rows: Seq<RowModel>, total: FiguresModel) -> Seq<char> {
    "{\"main_pid\":"@ + i32_text(main_pid) + ",\"processes\":["@ + join_with(
        shown_rows(c, main_pid, rows).map_values(|r: RowModel| json_process_text(c, r)),
        ',',
    ) + "],\"total_memory_mb\":"@ + total.memory + json_total_figures(c, total) + "}"@
}

/// Law of the figures of a text line: each figure is shown by its own
/// switch alone. The text after the memory is the peak part, the CPU part,
/// the I/O part and the swap part, in that order, each what it is when its
/// switch is the only one set: the peak when `--peak` is given and a peak
/// was seen, the CPU share whenever `--cpu` is given, reads and writes (per
/// second in monitor mode, in all else) whenever `--io` is given, swap
/// whenever `--swap` is given.
pub proof fn lemma_text_figures_by_switch(c: ConfigModel, f: FiguresModel)
    ensures
        text_figures(c, f) == text_figures(ConfigModel { cpu: false, io: false, swap: false, ..c }, f)
            + text_figures(ConfigModel { peak: false, io: false, swap: false, ..c }, f) + text_figures(
            ConfigModel { peak: false, cpu: false, swap: false, ..c },
            f,
        ) + text_figures(ConfigModel { peak: false, cpu: false, io: false, ..c }, f),
        text_figures(ConfigModel { cpu: false, io: false, swap: false, ..c }, f) == (if c.peak
            && f.peak is Some {
            " | peak: "@ + f.peak->0 + " MB"@
        } else {
            Seq::empty()
        }),
        text_figures(ConfigModel { peak: false, io: false, swap: false, ..c }, f) == (if c.cpu {
            " | cpu: "@ + f.cpu + "%"@
        } else {
            Seq::empty()
        }),
        text_figures(ConfigModel { peak: false, cpu: false, swap: false, ..c }, f) == (if c.io {
            if c.monitor {
                " | io: r "@ + f.read + " KB/s w "@ + f.write + " KB/s"@
            } else {
                " | io: r "@ + f.read + " MB w "@ + f.write + " MB"@
            }
        } else {
            Seq::empty()
        }),
        text_figures(ConfigModel { peak: false, cpu: false, io: false, ..c }, f) == (if c.swap {
            " | swap: "@ + f.swap + " MB"@
        } else {
            Seq::empty()
        }),
        !c.peak && !c.cpu && !c.io && !c.swap ==> text_figures(c, f) == Seq::<char>::empty(),
{
    let e = Seq::<char>::empty();
    assert(text_figures(ConfigModel { cpu: false, io: false, swap: false, ..c }, f) =~= (if c.peak
        && f.peak is Some {
        " | peak: "@ + f.peak->0 + " MB"@
    } else {
        e
    }));
    assert(text_figures(ConfigModel { peak: false, io: false, swap: false, ..c }, f) =~= (if c.cpu {
        " | cpu: "@ + f.cpu + "%"@
    } else {
        e
    }));
    assert(text_figures(ConfigModel { peak: false, cpu: false, swap: false, ..c }, f) =~= (if c.io {
        if c.monitor {
            " | io: r "@ + f.read + " KB/s w "@ + f.write + " KB/s"@
        } else {
            " | io: r "@ + f.read + " MB w "@ + f.write + " MB"@
        }
    } else {
        e
    }));
    assert(text_figures(ConfigModel { peak: false, cpu: false, io: false, ..c }, f) =~= (if c.swap {
        " | swap: "@ + f.swap + " MB"@
    } else {
        e
    }));
    assert(text_figures(c, f) =~= text_figures(ConfigModel { cpu: false, io: false, swap: false, ..c }, f)
        + text_figures(ConfigModel { peak: false, io: false, swap: false, ..c }, f) + text_figures(
        ConfigModel { peak: false, cpu: false, swap: false, ..c },
        f,
    ) + text_figures(ConfigModel { peak: false, cpu: false, io: false, ..c }, f));
    if !c.peak && !c.cpu && !c.io && !c.swap {
        assert(text_figures(c, f) =~= e);
    }
}

/// `a + b` has `a` as its first part and `b` as its last.
proof fn lemma_split_concat(a: Seq<char>, b: Seq<char>)
    ensures
        (a + b).take(a.len() as int) == a,
        (a + b).skip(a.len() as int) == b,
        (a + b).skip((a + b).len() - b.len()) == b,
{
    assert((a + b).take(a.len() as int) =~= a);
    assert((a + b).skip(a.len() as int) =~= b);
    assert((a + b).skip((a + b).len() - b.len()) =~= b);
}

proof fn lemma_peak_literal(head: Seq<char>, mem: Seq<char>, p: Seq<char>)
    requires
        head == "total: "@ + mem + " MB"@,
    ensures
        "total: "@ + mem + " MB | peak: "@ + p + " MB"@ == head + (" | peak: "@ + p + " MB"@),
{
    reveal_strlit(" MB | peak: ");
    reveal_strlit(" MB");
    reveal_strlit(" | peak: ");
    assert("total: "@ + mem + " MB | peak: "@ + p + " MB"@ =~= head + (" | peak: "@ + p + " MB"@));
}

/// Law of the lines of a tree: a process line and the total line end with
/// the same figures when their figures are the same, so the total shows the
/// peak, CPU share, I/O and swap exactly as the process lines do; the total
/// line is `total: <memory> MB` and then those figures.
pub proof fn lemma_total_line_like_process_lines(c: ConfigModel, r: RowModel, t: FiguresModel)
    ensures
        r.figures == t ==> process_text(c, r).skip(process_text(c, r).len() - text_figures(c, t).len())
            == total_text(c, t).skip(total_text(c, t).len() - text_figures(c, t).len()),
        total_text(c, t).take(("total: "@ + t.memory + " MB"@).len() as int) == "total: "@ + t.memory + " MB"@,
        total_text(c, t).skip(("total: "@ + t.memory + " MB"@).len() as int) == text_figures(c, t),
{
    let head = "total: "@ + t.memory + " MB"@;
    let tf = text_figures(c, t);
    assert(total_text(c, t) == head + tf);
    lemma_split_concat(head, tf);
    if r.figures == t {
        let ph = Seq::new(r.indent, |i: int| ' ') + r.name + "("@ + i32_text(r.pid) + "): "@
            + r.figures.memory + " MB"@;
        assert(process_text(c, r) == ph + tf);
        lemma_split_concat(ph, tf);
    }
}

/// Law of the total line: with `--peak` and a peak seen, the total line
/// reads `total: <memory> MB | peak: <peak> MB` and then the other figures.
pub proof fn lemma_total_line_peak(c: ConfigModel, t: FiguresModel)
    requires
        c.peak,
        t.peak is Some,
    ensures
        ("total: "@ + t.memory + " MB | peak: "@ + t.peak->0 + " MB"@).is_prefix_of(total_text(c, t)),
{
    let head = "total: "@ + t.memory + " MB"@;
    let tf = text_figures(c, t);
    let pk = " | peak: "@ + t.peak->0 + " MB"@;
    let rest = text_figures(ConfigModel { peak: false, io: false, swap: false, ..c }, t) + text_figures(
        ConfigModel { peak: false, cpu: false, swap: false, ..c },
        t,
    ) + text_figures(ConfigModel { peak: false, cpu: false, io: false, ..c }, t);
    assert(tf == pk + rest) by {
        lemma_text_figures_by_switch(c, t);
        assert(tf =~= pk + rest);
    }
    lemma_peak_literal(head, t.memory, t.peak->0);
    lemma_split_concat(head + pk, rest);
    assert(total_text(c, t) == head + tf);
    assert(head + tf =~= (head + pk) + rest);
}

/// Law of the shown rows: with children shown every row is shown, in its
/// order; without, the shown rows are exactly the rows of the tree's root,
/// in their order.
pub proof fn lemma_shown_rows(c: ConfigModel, main_pid: i32, rows: Seq<RowModel>)
    ensures
        c.children ==> shown_rows(c, main_pid, rows) == rows,
        !c.children ==> forall|i: int|
            0 <= i < shown_rows(c, main_pid, rows).len() ==> (#[trigger] shown_rows(c, main_pid, rows)[i]).pid
                == main_pid,
        !c.children ==> shown_rows(c, main_pid, rows) == shown_rows(
            c,
            main_pid,
            rows.filter(|r: RowModel| r.pid == main_pid),
        ),
        !c.children ==> forall|i: int|
            0 <= i < rows.len() && rows[i].pid == main_pid ==> shown_rows(c, main_pid, rows).contains(
                #[trigger] rows[i],
            ),
    decreases rows.len(),
{
    reveal_with_fuel(Seq::<_>::filter, 1);
    let keep = |r: RowModel| c.children || r.pid == main_pid;
    let root = |r: RowModel| r.pid == main_pid;
    if rows.len() > 0 {
        let t = rows.drop_last();
        let x = rows.last();
        lemma_shown_rows(c, main_pid, t);
        let st = shown_rows(c, main_pid, t);
        assert(rows.filter(keep) == if keep(x) { st.push(x) } else { st });
        if c.children {
            assert(rows =~= t.push(x));
        } else {
            assert(rows.filter(root) == if root(x) { t.filter(root).push(x) } else { t.filter(root) });
            let tr = t.filter(root);
            assert(tr.filter(keep) == shown_rows(c, main_pid, tr));
            if root(x) {
                let trx = tr.push(x);
                assert(trx.drop_last() =~= tr);
                assert(trx.filter(keep) == tr.filter(keep).push(x));
            }
            assert forall|i: int| 0 <= i < rows.filter(keep).len() implies (#[trigger] rows.filter(keep)[i]).pid
                == main_pid by {
                if i < st.len() {
                    assert(st[i].pid == main_pid);
                }
            }
            assert forall|i: int| 0 <= i < rows.len() && rows[i].pid == main_pid implies rows.filter(
                keep,
            ).contains(#[trigger] rows[i]) by {
                if i < t.len() {
                    assert(t[i] == rows[i]);
                    assert(st.contains(t[i]));
                    let j = choose|j: int| 0 <= j < st.len() && st[j] == t[i];
                    assert(rows.filter(keep)[j] == rows[i]);
                } else {
                    assert(rows.filter(keep)[st.len() as int] == rows[i]);
                }
            }
        }
    } else {
        assert(rows.filter(keep) =~= rows);
        assert(rows.filter(root) =~= rows);
    }
}

/// Law of the text report: with children shown there is one line per row,
/// in the order of the rows, then the total line.
pub proof fn lemma_text_report_lines(c: ConfigModel, main_pid: i32, rows: Seq<RowModel>, total: FiguresModel)
    ensures
        c.children ==> text_report(c, main_pid, rows, total).len() == rows.len() + 1,
        c.children ==> forall|i: int|
            0 <= i < rows.len() ==> #[trigger] text_report(c, main_pid, rows, total)[i] == process_text(c, rows[i]),
        text_report(c, main_pid, rows, total).last() == total_text(c, total),
{
    lemma_shown_rows(c, main_pid, rows);
}

/// Appends `b` to `a`.
fn append(a: &mut String, b: &str)
    ensures
        final(a)@ == old(a)@ + b@,
{
    a.append(b);
}

/// `label`, then `value`, then `unit`.
fn labeled(label: &str, value: &String, unit: &str) -> (s: String)
    ensures
        s@ == label@ + value@ + unit@,
{
    let mut s = String::from_str(label);
    append(&mut s, value.as_str());
    append(&mut s, unit);
    s
}

/// `name`, then `value`.
fn member(name: &str, value: &String) -> (s: String)
    ensures
        s@ == name@ + value@,
{
    let mut s = String::from_str(name);
    append(&mut s, value.as_str());
    s
}

/// The text after the memory figure of a line.
fn text_figures_of(config: &Config, f: &Figures) -> (s: String)
    ensures
        s@ == text_figures(config@, f@),
{
    let peak = match &f.peak {
        Some(p) if config.peak => labeled(" | peak: ", p, " MB"),
        _ => String::new(),
    };
    let cpu = if config.cpu {
        labeled(" | cpu: ", &f.cpu, "%")
    } else {
        String::new()
    };
    let io = if config.io {
        if config.monitor {
            let mut io = labeled(" | io: r ", &f.read, " KB/s w ");
            append(&mut io, f.write.as_str());
            append(&mut io, " KB/s");
            io
        } else {
            let mut io = labeled(" | io: r ", &f.read, " MB w ");
            append(&mut io, f.write.as_str());
            append(&mut io, " MB");
            io
        }
    } else {
        String::new()
    };
    let swap = if config.swap {
        labeled(" | swap: ", &f.swap, " MB")
    } else {
        String::new()
    };
    let mut s = peak;
    append(&mut s, cpu.as_str());
    append(&mut s, io.as_str());
    append(&mut s, swap.as_str());
    s
}

/// The text line of one process.
pub fn process_line(config: &Config, row: &ProcessRow) -> (s: String)
    ensures
        s@ == process_text(config@, row@),
{
    let mut s = String::new();
    let mut k: usize = 0;
    while k < row.indent
        invariant
            k <= row.indent,
            s@ == Seq::new(k as nat, |i: int| ' '),
        decreases row.indent - k,
    {
        push_char(&mut s, ' ');
        assert(s@ =~= Seq::new((k + 1) as nat, |i: int| ' '));
        k += 1;
    }
    let ghost pad = s@;
    append(&mut s, row.name.as_str());
    append(&mut s, "(");
    let pid = format_i32(row.pid);
    append(&mut s, pid.as_str());
    append(&mut s, "): ");
    append(&mut s, row.figures.memory.as_str());
    append(&mut s, " MB");
    let rest = text_figures_of(config, &row.figures);
    append(&mut s, rest.as_str());
    assert(s@ =~= process_text(config@, row@));
    s
}

/// The text line of the total of a tree.
pub fn total_line(config: &Config, total: &Figures) -> (s: String)
    ensures
        s@ == total_text(config@, total@),
{
    let mut s = String::from_str("total: ");
    append(&mut s, total.memory.as_str());
    append(&mut s, " MB");
    let rest = text_figures_of(config, total);
    append(&mut s, rest.as_str());
    assert(s@ =~= total_text(config@, total@));
    s
}

/// The text lines of a tree, as the text output prints them: one line per
/// shown process, in the order of the rows, then the line of the total.
pub fn vmrss_lines(config: &Config, main_pid: i32, rows: &Vec<ProcessRow>, total: &Figures) -> (lines: Vec<String>)
    ensures
        string_views(lines@) == text_report(config@, main_pid, row_views(rows@), total@),
{
    let ghost c = config@;
    let ghost rv = row_views(rows@);
    let ghost keep = |r: RowModel| c.children || r.pid == main_pid;
    let ghost line = |r: RowModel| process_text(c, r);
    let mut lines: Vec<String> = Vec::new();
    let mut i: usize = 0;
    while i < rows.len()
        invariant
            i <= rows.len(),
            c == config@,
            rv == row_views(rows@),
            keep == (|r: RowModel| c.children || r.pid == main_pid),
            line == (|r: RowModel| process_text(c, r)),
            string_views(lines@) == rv.take(i as int).filter(keep).map_values(line),
        decreases rows.len() - i,
    {
        let row = &rows[i];
        let ghost before = lines@;
        proof {
            reveal_with_fuel(Seq::<_>::filter, 1);
            assert(rv.take(i + 1).drop_last() =~= rv.take(i as int));
            assert(rv.take(i + 1).last() == row@);
        }
        if config.children || row.pid == main_pid {
            let l = process_line(config, row);
            lines.push(l);
            assert(string_views(lines@) =~= string_views(before).push(line(row@)));
            assert(rv.take(i + 1).filter(keep) == rv.take(i as int).filter(keep).push(row@));
            assert(rv.take(i + 1).filter(keep).map_values(line) =~= rv.take(i as int).filter(keep).map_values(line).push(line(row@)));
        } else {
            assert(rv.take(i + 1).filter(keep) == rv.take(i as int).filter(keep));
        }
        i += 1;
    }
    assert(rv.take(rows.len() as int) =~= rv);
    let ghost shown = string_views(lines@);
    lines.push(total_line(config, total));
    assert(string_views(lines@) =~= shown.push(total_text(c, total@)));
    lines
}

/// The JSON members after the memory of one process.
fn json_process_figures_of(config: &Config, f: &Figures) -> (s: String)
    ensures
        s@ == json_process_figures(config@, f@),
{
    let peak = match &f.peak {
        Some(p) if config.peak => member(",\"peak_memory_mb\":", p),
        _ => String::new(),
    };
    let cpu = if config.cpu {
        member(",\"cpu_percent\":", &f.cpu)
    } else {
        String::new()
    };
    let io = if config.io {
        if config.monitor {
            let mut io = labeled(",\"read_kb_per_sec\":", &f.read, ",\"write_kb_per_sec\":");
            append(&mut io, f.write.as_str());
            io
        } else {
            let mut io = labeled(",\"read_mb\":", &f.read, ",\"write_mb\":");
            append(&mut io, f.write.as_str());
            io
        }
    } else {
        String::new()
    };
    let swap = if config.swap {
        member(",\"swap_mb\":", &f.swap)
    } else {
        String::new()
    };
    let mut s = peak;
    append(&mut s, cpu.as_str());
    append(&mut s, io.as_str());
    append(&mut s, swap.as_str());
    s
}

/// The JSON members after the memory of the total of a tree.
fn json_total_figures_of(config: &Config, f: &Figures) -> (s: String)
    ensures
        s@ == json_total_figures(config@, f@),
{
    let peak = match &f.peak {
        Some(p) if config.peak => member(",\"peak_total_mb\":", p),
        _ => String::new(),
    };
    let cpu = if config.cpu {
        member(",\"total_cpu_percent\":", &f.cpu)
    } else {
        String::new()
    };
    let io = if config.io {
        if config.monitor {
            let mut io = labeled(
                ",\"total_read_kb_per_sec\":",
                &f.read,
                ",\"total_write_kb_per_sec\":",
            );
            append(&mut io, f.write.as_str());
            io
        } else {
            let mut io = labeled(",\"total_read_mb\":", &f.read, ",\"total_write_mb\":");
            append(&mut io, f.write.as_str());
            io
        }
    } else {
        String::new()
    };
    let swap = if config.swap {
        member(",\"total_swap_mb\":", &f.swap)
    } else {
        String::new()
    };
    let mut s = peak;
    append(&mut s, cpu.as_str());
    append(&mut s, io.as_str());
    append(&mut s, swap.as_str());
    s
}

/// The JSON object of one process.
pub fn json_process(config: &Config, row: &ProcessRow) -> (s: String)
    ensures
        s@ == json_process_text(config@, row@),
{
    let mut s = String::from_str("{\"pid\":");
    let pid = format_i32(row.pid);
    append(&mut s, pid.as_str());
    append(&mut s, ",\"name\":\"");
    let name = json_escape(row.name.as_str());
    append(&mut s, name.as_str());
    append(&mut s, "\",\"memory_mb\":");
    append(&mut s, row.figures.memory.as_str());
    let rest = json_process_figures_of(config, &row.figures);
    append(&mut s, rest.as_str());
    append(&mut s, "}");
    assert(s@ =~= json_process_text(config@, row@));
    s
}

/// The JSON object of a tree: its root, the objects of its shown processes
/// in the order of the rows, and its totals.
pub fn json_entry(config: &Config, main_pid: i32, rows: &Vec<ProcessRow>, total: &Figures) -> (s: String)
    ensures
        s@ == json_entry_text(config@, main_pid, row_views(rows@), total@),
{
    let ghost c = config@;
    let ghost rv = row_views(rows@);
    let ghost keep = |r: RowModel| c.children || r.pid == main_pid;
    let ghost obj = |r: RowModel| json_process_text(c, r);
    let mut objects: Vec<String> = Vec::new();
    let mut i: usize = 0;
    while i < rows.len()
        invariant
            i <= rows.len(),
            c == config@,
            rv == row_views(rows@),
            keep == (|r: RowModel| c.children || r.pid == main_pid),
            obj == (|r: RowModel| json_process_text(c, r)),
            string_views(objects@) == rv.take(i as int).filter(keep).map_values(obj),
        decreases rows.len() - i,
    {
        let row = &rows[i];
        let ghost before = objects@;
        proof {
            reveal_with_fuel(Seq::<_>::filter, 1);
            assert(rv.take(i + 1).drop_last() =~= rv.take(i as int));
            assert(rv.take(i + 1).last() == row@);
        }
        if config.children || row.pid == main_pid {
            let o = json_process(config, row);
            objects.push(o);
            assert(string_views(objects@) =~= string_views(before).push(obj(row@)));
            assert(rv.take(i + 1).filter(keep) == rv.take(i as int).filter(keep).push(row@));
            assert(rv.take(i + 1).filter(keep).map_values(obj) =~= rv.take(i as int).filter(keep).map_values(obj).push(obj(row@)));
        } else {
            assert(rv.take(i + 1).filter(keep) == rv.take(i as int).filter(keep));
        }
        i += 1;
    }
    assert(rv.take(rows.len() as int) =~= rv);
    let mut s = String::from_str("{\"main_pid\":");
    let pid = format_i32(main_pid);
    append(&mut s, pid.as_str());
    append(&mut s, ",\"processes\":[");
    let joined = join_strings(&objects, ',');
    append(&mut s, joined.as_str());
    append(&mut s, "],\"total_memory_mb\":");
    append(&mut s, total.memory.as_str());
    let rest = json_total_figures_of(config, total);
    append(&mut s, rest.as_str());
    append(&mut s, "}");
    assert(s@ =~= json_entry_text(config@, main_pid, rv, total@));
    s
}

/// The JSON array of the trees' objects.
pub fn json_document(entries: &Vec<String>) -> (s: String)
    ensures
        s@ == "["@ + join_with(string_views(entries@), ',') + "]"@,
{
    let mut s = String::from_str("[");
    let joined = join_strings(entries, ',');
    append(&mut s, joined.as_str());
    append(&mut s, "]");
    s
}

/// The text lines of several trees, one tree after another, with a blank
/// line before every tree but the first; a tree that has no lines (its root
/// could not be sampled) still gets its blank line.
pub open spec fn separated_trees(trees: Seq<Seq<Seq<char>>>) -> Seq<Seq<char>>
    decreases trees.len(),
{
    if trees.len() == 0 {
        Seq::empty()
    } else if trees.len() == 1 {
        trees[0]
    } else {
        separated_trees(trees.drop_last()) + seq![Seq::<char>::empty()] + trees.last()
    }
}

/// The lines of each tree as character sequences.
pub open spec fn tree_views(trees: Seq<Vec<String>>) -> Seq<Seq<Seq<char>>> {
    trees.map_values(|t: Vec<String>| string_views(t@))
}

/// The text output of one sample: the lines of the trees of the targets in
/// their order, separated by blank lines.
pub fn text_document(trees: &Vec<Vec<String>>) -> (lines: Vec<String>)
    ensures
        string_views(lines@) == separated_trees(tree_views(trees@)),
{
    let ghost all = tree_views(trees@);
    let mut lines: Vec<String> = Vec::new();
    let mut i: usize = 0;
    assert(all.take(0) =~= Seq::<Seq<Seq<char>>>::empty());
    while i < trees.len()
        invariant
            i <= trees.len(),
            all == tree_views(trees@),
            string_views(lines@) == separated_trees(all.take(i as int)),
        decreases trees.len() - i,
    {
        let ghost before = string_views(lines@);
        let ghost after = all.take(i + 1);
        assert(after.drop_last() =~= all.take(i as int));
        assert(after.last() == string_views(trees@[i as int]@));
        if i > 0 {
            lines.push(String::new());
        }
        let ghost mid = string_views(lines@);
        let tree = &trees[i];
        let mut k: usize = 0;
        while k < tree.len()
            invariant
                k <= tree.len(),
                string_views(lines@) == mid + string_views(tree@).take(k as int),
            decreases tree.len() - k,
        {
            let ghost old_lines = lines@;
            let line = tree[k].clone();
            assert(line@ == tree@[k as int]@);
            lines.push(line);
            assert(string_views(lines@) =~= string_views(old_lines).push(tree@[k as int]@));
            assert(string_views(tree@).take(k + 1) =~= string_views(tree@).take(k as int).push(
                tree@[k as int]@,
            ));
            assert(string_views(lines@) =~= mid + string_views(tree@).take(k + 1));
            k += 1;
        }
        assert(string_views(tree@).take(tree.len() as int) =~= string_views(tree@));
        proof {
            if i > 0 {
                assert(mid =~= before + seq![Seq::<char>::empty()]);
                assert(string_views(lines@) =~= separated_trees(after));
            } else {
                assert(after.len() == 1);
                assert(mid =~= Seq::<Seq<char>>::empty());
                assert(string_views(lines@) =~= separated_trees(after));
            }
        }
        i += 1;
    }
    assert(all.take(trees.len() as int) =~= all);
    lines
}

} // verus!
