//! JSON values and their text, after RFC 8259 without white space: the
//! objects and arrays that the library writes are the texts of values, well
//! formed when the figures in them are JSON numbers, and every string in
//! them is escaped into what a JSON string may hold.
use vstd::prelude::*;
use crate::cli::ConfigModel;
use crate::decimal::{all_digits, decimal_digits, i32_text, is_digit, lemma_decimal_digits};
use crate::output::{
    escape_char, hex_digits, is_control, json_entry_text, json_escaped, json_process_figures,
    json_process_text, json_total_figures, shown_rows, FiguresModel, RowModel,
};
use crate::text::join_with;

verus! {

/// A JSON value, as RFC 8259 describes it (without white space).
pub enum JsonValue {
    /// A number, as its text.
    Number(Seq<char>),
    /// A string, as the characters it stands for.
    Text(Seq<char>),
    /// An array of values.
    Array(Seq<JsonValue>),
    /// An object: the names and values of its members, in order.
    Object(Seq<(Seq<char>, JsonValue)>),
}

/// The JSON text of a string: its characters escaped, in quotes.
pub open spec fn quoted(t: Seq<char>) -> Seq<char> {
    seq!['"'] + json_escaped(t) + seq!['"']
}

/// The text of one member of an object.
pub open spec fn member_text(name: Seq<char>, value: Seq<char>) -> Seq<char> {
    quoted(name) + seq![':'] + value
}

/// The JSON text of a value: numbers as written, strings quoted and
/// escaped, arrays and objects with their items separated by commas.
pub open spec fn json_text(v: JsonValue) -> Seq<char>
    decreases v,
{
    match v {
        JsonValue::Number(t) => t,
        JsonValue::Text(t) => quoted(t),
        JsonValue::Array(items) => seq!['['] + join_with(item_texts(items), ',') + seq![']'],
        JsonValue::Object(ms) => seq!['{'] + join_with(member_texts(ms), ',') + seq!['}'],
    }
}

/// The texts of the items of an array.
pub open spec fn item_texts(items: Seq<JsonValue>) -> Seq<Seq<char>>
    decreases items,
{
    Seq::new(
        items.len(),
        |i: int|
            if 0 <= i < items.len() {
                json_text(items[i])
            } else {
                Seq::empty()
            },
    )
}

/// The texts of the members of an object.
pub open spec fn member_texts(ms: Seq<(Seq<char>, JsonValue)>) -> Seq<Seq<char>>
    decreases ms,
{
    Seq::new(
        ms.len(),
        |i: int|
            if 0 <= i < ms.len() {
                member_text(ms[i].0, json_text(ms[i].1))
            } else {
                Seq::empty()
            },
    )
}

/// A hexadecimal digit, in either case.
pub open spec fn is_hex_digit(c: char) -> bool {
    ('0' <= c && c <= '9') || ('a' <= c && c <= 'f') || ('A' <= c && c <= 'F')
}

/// A character that a JSON string may hold as it is: anything but a quote,
/// a backslash or a character below U+0020.
pub open spec fn is_unescaped(c: char) -> bool {
    (c as u32) >= 0x20 && c != '"' && c != '\\'
}

/// An escape of a JSON string: a backslash and one of the characters
/// `"`, `\`, `/`, `b`, `f`, `n`, `r`, `t`, or a backslash, `u` and four
/// hexadecimal digits.
pub open spec fn is_escape(e: Seq<char>) -> bool {
    ||| (e.len() == 2 && e[0] == '\\' && (e[1] == '"' || e[1] == '\\' || e[1] == '/' || e[1] == 'b'
        || e[1] == 'f' || e[1] == 'n' || e[1] == 'r' || e[1] == 't'))
    ||| (e.len() == 6 && e[0] == '\\' && e[1] == 'u' && is_hex_digit(e[2]) && is_hex_digit(e[3])
        && is_hex_digit(e[4]) && is_hex_digit(e[5]))
}

/// The characters between the quotes of a JSON string: characters held as
/// they are and escapes, one after another.
pub open spec fn is_string_body(s: Seq<char>) -> bool
    decreases s.len(),
{
    if s.len() == 0 {
        true
    } else {
        ||| (is_unescaped(s.last()) && is_string_body(s.drop_last()))
        ||| (s.len() >= 2 && is_escape(s.skip(s.len() - 2)) && is_string_body(s.take(s.len() - 2)))
        ||| (s.len() >= 6 && is_escape(s.skip(s.len() - 6)) && is_string_body(s.take(s.len() - 6)))
    }
}

/// Text escaped for a JSON string is what a JSON string may hold between
/// its quotes.
pub proof fn lemma_json_escaped_is_string_body(t: Seq<char>)
    ensures
        is_string_body(json_escaped(t)),
    decreases t.len(),
{
    if t.len() > 0 {
        lemma_json_escaped_is_string_body(t.drop_last());
        let a = json_escaped(t.drop_last());
        let c = t.last();
        let e = escape_char(c);
        let s = a + e;
        assert(json_escaped(t) == s);
        assert forall|k: int| 0 <= k < 16 implies is_hex_digit(#[trigger] hex_digits()[k]) by {}
        if e.len() == 1 {
            assert(s.drop_last() =~= a);
            assert(s.last() == c);
            assert(is_unescaped(c));
        } else {
            let n = e.len() as int;
            assert(s.skip(s.len() - n) =~= e);
            assert(s.take(s.len() - n) =~= a);
            if n == 6 {
                let m = c as nat;
                assert(0 <= (m / 4096) % 16 < 16);
                assert(0 <= (m / 256) % 16 < 16);
                assert(0 <= (m / 16) % 16 < 16);
                assert(0 <= m % 16 < 16);
                assert(is_escape(e));
            }
        }
    }
}

/// An integer part of a JSON number: digits, without a leading zero unless
/// it is the only one.
pub open spec fn is_json_int(d: Seq<char>) -> bool {
    d.len() > 0 && all_digits(d) && (d[0] != '0' || d.len() == 1)
}

/// An exponent of a JSON number: `e` or `E`, an optional sign, digits.
pub open spec fn is_json_exponent(x: Seq<char>) -> bool {
    x.len() >= 2 && (x[0] == 'e' || x[0] == 'E') && {
        let y = x.drop_first();
        let z = if y[0] == '+' || y[0] == '-' {
            y.drop_first()
        } else {
            y
        };
        z.len() > 0 && all_digits(z)
    }
}

/// `u` (a number without its sign) splits at `i` and `j` into an integer
/// part, a fraction (empty when `i == j`) and an exponent (empty when `j`
/// is its end).
pub open spec fn json_number_parts(u: Seq<char>, i: int, j: int) -> bool {
    &&& 0 < i <= j <= u.len()
    &&& is_json_int(u.take(i))
    &&& (j == i || (j >= i + 2 && u[i] == '.' && all_digits(u.subrange(i + 1, j))))
    &&& (j == u.len() || is_json_exponent(u.skip(j)))
}

/// A number as RFC 8259 writes it: an optional minus sign, an integer part,
/// an optional fraction and an optional exponent.
pub open spec fn is_json_number(t: Seq<char>) -> bool {
    exists|i: int, j: int| json_number_parts(unsigned_part(t), i, j)
}

/// A number's text without its minus sign.
pub open spec fn unsigned_part(t: Seq<char>) -> Seq<char> {
    if t.len() > 0 && t[0] == '-' {
        t.drop_first()
    } else {
        t
    }
}

/// A value whose numbers are all written as JSON numbers.
pub open spec fn well_formed(v: JsonValue) -> bool
    decreases v,
{
    match v {
        JsonValue::Number(t) => is_json_number(t),
        JsonValue::Text(_) => true,
        JsonValue::Array(items) => forall|i: int| 0 <= i < items.len() ==> well_formed(#[trigger] items[i]),
        JsonValue::Object(ms) => forall|i: int| 0 <= i < ms.len() ==> well_formed(#[trigger] ms[i].1),
    }
}

/// The decimal digits of a positive number do not begin with zero.
proof fn lemma_decimal_digits_lead(n: nat)
    requires
        n > 0,
    ensures
        decimal_digits(n)[0] != '0',
    decreases n,
{
    lemma_decimal_digits(n);
    if n < 10 {
        let ds = seq!['0', '1', '2', '3', '4', '5', '6', '7', '8', '9'];
        assert(decimal_digits(n)[0] == ds[n as int]);
    } else {
        lemma_decimal_digits_lead(n / 10);
        lemma_decimal_digits(n / 10);
        assert(decimal_digits(n)[0] == decimal_digits(n / 10)[0]);
    }
}

/// An `i32` written in decimal is a JSON number.
pub proof fn lemma_i32_text_is_json_number(n: i32)
    ensures
        is_json_number(i32_text(n)),
{
    let m: nat = if n < 0 { (-(n as int)) as nat } else { n as nat };
    let d = decimal_digits(m);
    lemma_decimal_digits(m);
    if m > 0 {
        lemma_decimal_digits_lead(m);
    } else {
        assert(d =~= seq!['0']) by {
            assert(d.len() == 1);
        }
    }
    let t = i32_text(n);
    let u = unsigned_part(t);
    if n < 0 {
        assert(t[0] == '-');
        assert(u =~= d);
    } else {
        assert(t == d);
        assert(is_digit(d[0]));
        assert(u == d);
    }
    let k = u.len() as int;
    assert(u.take(k) =~= u);
    assert(is_json_int(u.take(k)));
    assert(json_number_parts(u, k, k));
}

/// Text without quotes, backslashes or control characters is its own escape.
pub proof fn lemma_escaped_plain(s: Seq<char>)
    requires
        forall|i: int| 0 <= i < s.len() ==> (#[trigger] s[i] != '"' && s[i] != '\\' && !is_control(s[i])),
    ensures
        json_escaped(s) == s,
    decreases s.len(),
{
    if s.len() > 0 {
        let t = s.drop_last();
        assert forall|i: int| 0 <= i < t.len() implies (#[trigger] t[i] != '"' && t[i] != '\\' && !is_control(t[i])) by {
            assert(t[i] == s[i]);
        }
        lemma_escaped_plain(t);
        let c = s.last();
        assert(c == s[s.len() - 1]);
        assert(escape_char(c) == seq![c]);
        assert(t.push(c) =~= s);
        assert(json_escaped(s) =~= t + seq![c]);
    }
}

/// Each of `ws`, with `sep` before it.
pub open spec fn prefixed(ws: Seq<Seq<char>>, sep: char) -> Seq<char>
    decreases ws.len(),
{
    if ws.len() == 0 {
        Seq::empty()
    } else {
        prefixed(ws.drop_last(), sep) + seq![sep] + ws.last()
    }
}

proof fn lemma_prefixed_concat(a: Seq<Seq<char>>, b: Seq<Seq<char>>, sep: char)
    ensures
        prefixed(a + b, sep) == prefixed(a, sep) + prefixed(b, sep),
    decreases b.len(),
{
    if b.len() == 0 {
        assert(a + b =~= a);
        assert(prefixed(a, sep) + prefixed(b, sep) =~= prefixed(a, sep));
    } else {
        lemma_prefixed_concat(a, b.drop_last(), sep);
        assert((a + b).drop_last() =~= a + b.drop_last());
        assert((a + b).last() == b.last());
        assert(prefixed(a + b, sep) =~= prefixed(a, sep) + prefixed(b, sep));
    }
}

proof fn lemma_prefixed_two(x: Seq<char>, y: Seq<char>, sep: char)
    ensures
        prefixed(seq![x], sep) == seq![sep] + x,
        prefixed(seq![x, y], sep) == seq![sep] + x + seq![sep] + y,
{
    assert(seq![x].drop_last() =~= Seq::<Seq<char>>::empty());
    assert(prefixed(Seq::<Seq<char>>::empty(), sep) =~= Seq::<char>::empty());
    assert(seq![x, y].drop_last() =~= seq![x]);
    assert(prefixed(seq![x], sep) =~= seq![sep] + x);
    assert(prefixed(seq![x, y], sep) =~= seq![sep] + x + seq![sep] + y);
}

/// A list joined by `sep` is its first item, then the others each after a
/// `sep`.
proof fn lemma_join_first(ws: Seq<Seq<char>>, sep: char)
    requires
        ws.len() > 0,
    ensures
        join_with(ws, sep) == ws[0] + prefixed(ws.skip(1), sep),
    decreases ws.len(),
{
    if ws.len() == 1 {
        assert(ws.skip(1) =~= Seq::<Seq<char>>::empty());
        assert(ws[0] + prefixed(ws.skip(1), sep) =~= ws[0]);
    } else {
        lemma_join_first(ws.drop_last(), sep);
        assert(ws.drop_last().skip(1) =~= ws.skip(1).drop_last());
        assert(ws.skip(1).last() == ws.last());
        assert(join_with(ws, sep) =~= ws[0] + prefixed(ws.skip(1), sep));
    }
}

/// The members whose switch in `on` is set, in order: the `k`-th named
/// `keys[k]`, its value the number `values[k]`.
pub open spec fn optional_members(on: Seq<bool>, keys: Seq<Seq<char>>, values: Seq<Seq<char>>) -> Seq<(Seq<char>, JsonValue)>
    decreases on.len(),
{
    if on.len() == 0 {
        Seq::empty()
    } else {
        let k = on.len() - 1;
        optional_members(on.drop_last(), keys, values) + if on[k] {
            seq![(keys[k], JsonValue::Number(values[k]))]
        } else {
            Seq::empty()
        }
    }
}

/// The text of the values whose switch in `on` is set, each after the text
/// in `lits` that introduces it.
spec fn optional_text(on: Seq<bool>, lits: Seq<Seq<char>>, values: Seq<Seq<char>>) -> Seq<char>
    decreases on.len(),
{
    if on.len() == 0 {
        Seq::empty()
    } else {
        let k = on.len() - 1;
        optional_text(on.drop_last(), lits, values) + if on[k] {
            lits[k] + values[k]
        } else {
            Seq::empty()
        }
    }
}

proof fn lemma_member_concat(a: Seq<(Seq<char>, JsonValue)>, b: Seq<(Seq<char>, JsonValue)>)
    ensures
        member_texts(a + b) == member_texts(a) + member_texts(b),
{
    assert(member_texts(a + b) =~= member_texts(a) + member_texts(b));
}

proof fn lemma_optional_text(on: Seq<bool>, keys: Seq<Seq<char>>, lits: Seq<Seq<char>>, values: Seq<Seq<char>>)
    requires
        forall|k: int| 0 <= k < on.len() ==> #[trigger] lits[k] == seq![','] + quoted(keys[k]) + seq![':'],
    ensures
        optional_text(on, lits, values) == prefixed(member_texts(optional_members(on, keys, values)), ','),
    decreases on.len(),
{
    if on.len() > 0 {
        let k = on.len() - 1;
        let front = optional_members(on.drop_last(), keys, values);
        let last: Seq<(Seq<char>, JsonValue)> = if on[k] {
            seq![(keys[k], JsonValue::Number(values[k]))]
        } else {
            Seq::empty()
        };
        lemma_optional_text(on.drop_last(), keys, lits, values);
        lemma_member_concat(front, last);
        lemma_prefixed_concat(member_texts(front), member_texts(last), ',');
        if on[k] {
            let m = member_text(keys[k], values[k]);
            assert(member_texts(last) =~= seq![m]);
            lemma_prefixed_two(m, m, ',');
            assert(lits[k] == seq![','] + quoted(keys[k]) + seq![':']);
            assert(prefixed(member_texts(last), ',') =~= lits[k] + values[k]);
        } else {
            assert(member_texts(last) =~= Seq::<Seq<char>>::empty());
            assert(prefixed(member_texts(last), ',') =~= Seq::<char>::empty());
        }
        assert(optional_text(on, lits, values) =~= prefixed(member_texts(optional_members(on, keys, values)), ','));
    }
}

/// Which figures are shown: the peak (when asked for and seen), the CPU
/// share, reads and writes per second (in monitor mode) or in all, swap.
pub open spec fn figure_switches(c: ConfigModel, f: FiguresModel) -> Seq<bool> {
    seq![c.peak && f.peak is Some, c.cpu, c.io && c.monitor, c.io && c.monitor, c.io && !c.monitor, c.io && !c.monitor, c.swap]
}

/// The figures in the order of their switches.
pub open spec fn figure_values(f: FiguresModel) -> Seq<Seq<char>> {
    let peak = match f.peak {
        Some(p) => p,
        None => Seq::empty(),
    };
    seq![peak, f.cpu, f.read, f.write, f.read, f.write, f.swap]
}

/// The members of the figures that are shown, named by `keys`.
pub open spec fn figure_members(c: ConfigModel, f: FiguresModel, keys: Seq<Seq<char>>) -> Seq<(Seq<char>, JsonValue)> {
    optional_members(figure_switches(c, f), keys, figure_values(f))
}

/// The `k`-th value after its text, when its switch is set.
spec fn optional_piece(on: Seq<bool>, lits: Seq<Seq<char>>, values: Seq<Seq<char>>, k: int) -> Seq<char> {
    if on[k] {
        lits[k] + values[k]
    } else {
        Seq::empty()
    }
}

proof fn lemma_optional_text_step(on: Seq<bool>, lits: Seq<Seq<char>>, values: Seq<Seq<char>>, k: int)
    requires
        0 <= k < on.len(),
    ensures
        optional_text(on.take(k + 1), lits, values) == optional_text(on.take(k), lits, values) + optional_piece(on, lits, values, k),
{
    assert(on.take(k + 1).drop_last() =~= on.take(k));
    assert(on.take(k + 1)[k] == on[k]);
}

#[verifier::spinoff_prover]
#[verifier::rlimit(40)]
proof fn lemma_figures_with(c: ConfigModel, f: FiguresModel, lits: Seq<Seq<char>>, text: Seq<char>)
    requires
        lits.len() == 7,
        text == (if c.peak && f.peak is Some {
            lits[0] + f.peak->0
        } else {
            Seq::empty()
        }) + (if c.cpu {
            lits[1] + f.cpu
        } else {
            Seq::empty()
        }) + (if c.io {
            if c.monitor {
                lits[2] + f.read + lits[3] + f.write
            } else {
                lits[4] + f.read + lits[5] + f.write
            }
        } else {
            Seq::empty()
        }) + (if c.swap {
            lits[6] + f.swap
        } else {
            Seq::empty()
        }),
    ensures
        optional_text(figure_switches(c, f), lits, figure_values(f)) == text,
{
    let on = figure_switches(c, f);
    let v = figure_values(f);
    assert(on.take(0) =~= Seq::<bool>::empty());
    lemma_optional_text_step(on, lits, v, 0);
    lemma_optional_text_step(on, lits, v, 1);
    lemma_optional_text_step(on, lits, v, 2);
    lemma_optional_text_step(on, lits, v, 3);
    lemma_optional_text_step(on, lits, v, 4);
    lemma_optional_text_step(on, lits, v, 5);
    lemma_optional_text_step(on, lits, v, 6);
    assert(on.take(7) =~= on);
    let p = |k: int| optional_piece(on, lits, v, k);
    assert(optional_text(on, lits, v) == p(0) + p(1) + p(2) + p(3) + p(4) + p(5) + p(6)) by {
        assert(optional_text(on.take(0), lits, v) =~= Seq::<char>::empty());
        assert(optional_text(on, lits, v) =~= p(0) + p(1) + p(2) + p(3) + p(4) + p(5) + p(6));
    }
    let head = p(0) + p(1);
    if c.io {
        if c.monitor {
            assert(p(4) =~= Seq::<char>::empty());
            assert(p(5) =~= Seq::<char>::empty());
        } else {
            assert(p(2) =~= Seq::<char>::empty());
            assert(p(3) =~= Seq::<char>::empty());
        }
    } else {
        assert(p(2) =~= Seq::<char>::empty());
        assert(p(3) =~= Seq::<char>::empty());
        assert(p(4) =~= Seq::<char>::empty());
        assert(p(5) =~= Seq::<char>::empty());
    }
    assert(optional_text(on, lits, v) =~= text);
}

/// The names of the figure members of a process.
pub open spec fn process_keys() -> Seq<Seq<char>> {
    seq!["peak_memory_mb"@, "cpu_percent"@, "read_kb_per_sec"@, "write_kb_per_sec"@, "read_mb"@, "write_mb"@, "swap_mb"@]
}

/// The names of the figure members of the total of a tree.
pub open spec fn total_keys() -> Seq<Seq<char>> {
    seq!["peak_total_mb"@, "total_cpu_percent"@, "total_read_kb_per_sec"@, "total_write_kb_per_sec"@, "total_read_mb"@, "total_write_mb"@, "total_swap_mb"@]
}

/// The texts that introduce the figure members of a process.
spec fn process_lits() -> Seq<Seq<char>> {
    seq![",\"peak_memory_mb\":"@, ",\"cpu_percent\":"@, ",\"read_kb_per_sec\":"@, ",\"write_kb_per_sec\":"@, ",\"read_mb\":"@, ",\"write_mb\":"@, ",\"swap_mb\":"@]
}

/// The texts that introduce the figure members of a total.
spec fn total_lits() -> Seq<Seq<char>> {
    seq![",\"peak_total_mb\":"@, ",\"total_cpu_percent\":"@, ",\"total_read_kb_per_sec\":"@, ",\"total_write_kb_per_sec\":"@, ",\"total_read_mb\":"@, ",\"total_write_mb\":"@, ",\"total_swap_mb\":"@]
}

proof fn lemma_process_literals()
    ensures
        forall|k: int| 0 <= k < 7 ==> #[trigger] process_lits()[k] == seq![','] + quoted(process_keys()[k]) + seq![':'],
{
    assert(",\"peak_memory_mb\":"@ == seq![','] + quoted("peak_memory_mb"@) + seq![':']) by {
        reveal_strlit("peak_memory_mb");
        reveal_strlit(",\"peak_memory_mb\":");
        lemma_escaped_plain("peak_memory_mb"@);
        assert(",\"peak_memory_mb\":"@ =~= seq![','] + quoted("peak_memory_mb"@) + seq![':']);
    }
    assert(",\"cpu_percent\":"@ == seq![','] + quoted("cpu_percent"@) + seq![':']) by {
        reveal_strlit("cpu_percent");
        reveal_strlit(",\"cpu_percent\":");
        lemma_escaped_plain("cpu_percent"@);
        assert(",\"cpu_percent\":"@ =~= seq![','] + quoted("cpu_percent"@) + seq![':']);
    }
    assert(",\"read_kb_per_sec\":"@ == seq![','] + quoted("read_kb_per_sec"@) + seq![':']) by {
        reveal_strlit("read_kb_per_sec");
        reveal_strlit(",\"read_kb_per_sec\":");
        lemma_escaped_plain("read_kb_per_sec"@);
        assert(",\"read_kb_per_sec\":"@ =~= seq![','] + quoted("read_kb_per_sec"@) + seq![':']);
    }
    assert(",\"write_kb_per_sec\":"@ == seq![','] + quoted("write_kb_per_sec"@) + seq![':']) by {
        reveal_strlit("write_kb_per_sec");
        reveal_strlit(",\"write_kb_per_sec\":");
        lemma_escaped_plain("write_kb_per_sec"@);
        assert(",\"write_kb_per_sec\":"@ =~= seq![','] + quoted("write_kb_per_sec"@) + seq![':']);
    }
    assert(",\"read_mb\":"@ == seq![','] + quoted("read_mb"@) + seq![':']) by {
        reveal_strlit("read_mb");
        reveal_strlit(",\"read_mb\":");
        lemma_escaped_plain("read_mb"@);
        assert(",\"read_mb\":"@ =~= seq![','] + quoted("read_mb"@) + seq![':']);
    }
    assert(",\"write_mb\":"@ == seq![','] + quoted("write_mb"@) + seq![':']) by {
        reveal_strlit("write_mb");
        reveal_strlit(",\"write_mb\":");
        lemma_escaped_plain("write_mb"@);
        assert(",\"write_mb\":"@ =~= seq![','] + quoted("write_mb"@) + seq![':']);
    }
    assert(",\"swap_mb\":"@ == seq![','] + quoted("swap_mb"@) + seq![':']) by {
        reveal_strlit("swap_mb");
        reveal_strlit(",\"swap_mb\":");
        lemma_escaped_plain("swap_mb"@);
        assert(",\"swap_mb\":"@ =~= seq![','] + quoted("swap_mb"@) + seq![':']);
    }
}

proof fn lemma_total_literals()
    ensures
        forall|k: int| 0 <= k < 7 ==> #[trigger] total_lits()[k] == seq![','] + quoted(total_keys()[k]) + seq![':'],
{
    assert(",\"peak_total_mb\":"@ == seq![','] + quoted("peak_total_mb"@) + seq![':']) by {
        reveal_strlit("peak_total_mb");
        reveal_strlit(",\"peak_total_mb\":");
        lemma_escaped_plain("peak_total_mb"@);
        assert(",\"peak_total_mb\":"@ =~= seq![','] + quoted("peak_total_mb"@) + seq![':']);
    }
    assert(",\"total_cpu_percent\":"@ == seq![','] + quoted("total_cpu_percent"@) + seq![':']) by {
        reveal_strlit("total_cpu_percent");
        reveal_strlit(",\"total_cpu_percent\":");
        lemma_escaped_plain("total_cpu_percent"@);
        assert(",\"total_cpu_percent\":"@ =~= seq![','] + quoted("total_cpu_percent"@) + seq![':']);
    }
    assert(",\"total_read_kb_per_sec\":"@ == seq![','] + quoted("total_read_kb_per_sec"@) + seq![':']) by {
        reveal_strlit("total_read_kb_per_sec");
        reveal_strlit(",\"total_read_kb_per_sec\":");
        lemma_escaped_plain("total_read_kb_per_sec"@);
        assert(",\"total_read_kb_per_sec\":"@ =~= seq![','] + quoted("total_read_kb_per_sec"@) + seq![':']);
    }
    assert(",\"total_write_kb_per_sec\":"@ == seq![','] + quoted("total_write_kb_per_sec"@) + seq![':']) by {
        reveal_strlit("total_write_kb_per_sec");
        reveal_strlit(",\"total_write_kb_per_sec\":");
        lemma_escaped_plain("total_write_kb_per_sec"@);
        assert(",\"total_write_kb_per_sec\":"@ =~= seq![','] + quoted("total_write_kb_per_sec"@) + seq![':']);
    }
    assert(",\"total_read_mb\":"@ == seq![','] + quoted("total_read_mb"@) + seq![':']) by {
        reveal_strlit("total_read_mb");
        reveal_strlit(",\"total_read_mb\":");
        lemma_escaped_plain("total_read_mb"@);
        assert(",\"total_read_mb\":"@ =~= seq![','] + quoted("total_read_mb"@) + seq![':']);
    }
    assert(",\"total_write_mb\":"@ == seq![','] + quoted("total_write_mb"@) + seq![':']) by {
        reveal_strlit("total_write_mb");
        reveal_strlit(",\"total_write_mb\":");
        lemma_escaped_plain("total_write_mb"@);
        assert(",\"total_write_mb\":"@ =~= seq![','] + quoted("total_write_mb"@) + seq![':']);
    }
    assert(",\"total_swap_mb\":"@ == seq![','] + quoted("total_swap_mb"@) + seq![':']) by {
        reveal_strlit("total_swap_mb");
        reveal_strlit(",\"total_swap_mb\":");
        lemma_escaped_plain("total_swap_mb"@);
        assert(",\"total_swap_mb\":"@ =~= seq![','] + quoted("total_swap_mb"@) + seq![':']);
    }
}

/// The members of the object of one process: its id, name and memory, then
/// the figures that are asked for.
pub open spec fn process_members(c: ConfigModel, r: RowModel) -> Seq<(Seq<char>, JsonValue)> {
    seq![
        ("pid"@, JsonValue::Number(i32_text(r.pid))),
        ("name"@, JsonValue::Text(r.name)),
        ("memory_mb"@, JsonValue::Number(r.figures.memory)),
    ] + figure_members(c, r.figures, process_keys())
}

/// The JSON value of one process.
pub open spec fn process_value(c: ConfigModel, r: RowModel) -> JsonValue {
    JsonValue::Object(process_members(c, r))
}

proof fn lemma_process_head()
    ensures
        "{\"pid\":"@ == seq!['{'] + quoted("pid"@) + seq![':'],
        ",\"name\":\""@ == seq![','] + quoted("name"@) + seq![':', '"'],
        "\",\"memory_mb\":"@ == seq!['"', ','] + quoted("memory_mb"@) + seq![':'],
        "}"@ == seq!['}'],
{
    assert("{\"pid\":"@ == seq!['{'] + quoted("pid"@) + seq![':']) by {
        reveal_strlit("pid");
        reveal_strlit("{\"pid\":");
        lemma_escaped_plain("pid"@);
        assert("{\"pid\":"@ =~= seq!['{'] + quoted("pid"@) + seq![':']);
    }
    assert(",\"name\":\""@ == seq![','] + quoted("name"@) + seq![':', '"']) by {
        reveal_strlit("name");
        reveal_strlit(",\"name\":\"");
        lemma_escaped_plain("name"@);
        assert(",\"name\":\""@ =~= seq![','] + quoted("name"@) + seq![':', '"']);
    }
    assert("\",\"memory_mb\":"@ == seq!['"', ','] + quoted("memory_mb"@) + seq![':']) by {
        reveal_strlit("memory_mb");
        reveal_strlit("\",\"memory_mb\":");
        lemma_escaped_plain("memory_mb"@);
        assert("\",\"memory_mb\":"@ =~= seq!['"', ','] + quoted("memory_mb"@) + seq![':']);
    }
    assert("}"@ == seq!['}']) by {
        reveal_strlit("}");
        assert("}"@ =~= seq!['}']);
    }
}

/// The figure members of a process have the text that `json_process`
/// writes after the memory.
proof fn lemma_process_figures(c: ConfigModel, f: FiguresModel)
    ensures
        prefixed(member_texts(figure_members(c, f, process_keys())), ',') == json_process_figures(c, f),
{
    lemma_process_literals();
    lemma_optional_text(figure_switches(c, f), process_keys(), process_lits(), figure_values(f));
    lemma_figures_with(c, f, process_lits(), json_process_figures(c, f));
}

proof fn lemma_process_join(c: ConfigModel, r: RowModel)
    ensures
        join_with(member_texts(process_members(c, r)), ',') == member_text("pid"@, i32_text(r.pid)) + (
        seq![','] + member_text("name"@, quoted(r.name)) + seq![','] + member_text("memory_mb"@, r.figures.memory))
            + json_process_figures(c, r.figures),
{
    let f = r.figures;
    let figs = figure_members(c, f, process_keys());
    let base = seq![
        ("pid"@, JsonValue::Number(i32_text(r.pid))),
        ("name"@, JsonValue::Text(r.name)),
        ("memory_mb"@, JsonValue::Number(f.memory)),
    ];
    let ms = process_members(c, r);
    let mp = member_text("pid"@, i32_text(r.pid));
    let mn = member_text("name"@, quoted(r.name));
    let mm = member_text("memory_mb"@, f.memory);
    lemma_member_concat(base, figs);
    assert(member_texts(base) =~= seq![mp, mn, mm]);
    lemma_join_first(member_texts(ms), ',');
    assert(member_texts(ms).skip(1) =~= seq![mn, mm] + member_texts(figs));
    lemma_prefixed_concat(seq![mn, mm], member_texts(figs), ',');
    lemma_prefixed_two(mn, mm, ',');
    lemma_process_figures(c, f);
    assert(member_texts(ms)[0] == mp);
}

proof fn lemma_process_algebra(
    qp: Seq<char>,
    qn: Seq<char>,
    qm: Seq<char>,
    i: Seq<char>,
    esc: Seq<char>,
    mem: Seq<char>,
    rest: Seq<char>,
)
    ensures
        seq!['{'] + ((qp + seq![':'] + i) + (seq![','] + (qn + seq![':'] + (seq!['"'] + esc + seq!['"']))
            + seq![','] + (qm + seq![':'] + mem)) + rest) + seq!['}'] == (seq!['{'] + qp + seq![':']) + i
            + (seq![','] + qn + seq![':', '"']) + esc + (seq!['"', ','] + qm + seq![':']) + mem + rest
            + seq!['}'],
{
    assert(seq!['{'] + ((qp + seq![':'] + i) + (seq![','] + (qn + seq![':'] + (seq!['"'] + esc + seq!['"']))
        + seq![','] + (qm + seq![':'] + mem)) + rest) + seq!['}'] =~= (seq!['{'] + qp + seq![':']) + i
        + (seq![','] + qn + seq![':', '"']) + esc + (seq!['"', ','] + qm + seq![':']) + mem + rest
        + seq!['}']);
}

/// The JSON text of the value of a process is the object that
/// `json_process` writes.
pub proof fn lemma_process_value_text(c: ConfigModel, r: RowModel)
    ensures
        json_text(process_value(c, r)) == json_process_text(c, r),
{
    lemma_process_join(c, r);
    lemma_process_head();
    lemma_process_algebra(
        quoted("pid"@),
        quoted("name"@),
        quoted("memory_mb"@),
        i32_text(r.pid),
        json_escaped(r.name),
        r.figures.memory,
        json_process_figures(c, r.figures),
    );
}

/// The values of processes.
pub open spec fn process_values(c: ConfigModel, rows: Seq<RowModel>) -> Seq<JsonValue> {
    rows.map_values(|r: RowModel| process_value(c, r))
}

/// The members of the object of a tree: its root's id, the values of its
/// shown processes, its total memory, then the other totals that are asked
/// for.
pub open spec fn entry_members(c: ConfigModel, main_pid: i32, rows: Seq<RowModel>, total: FiguresModel) -> Seq<(Seq<char>, JsonValue)> {
    seq![
        ("main_pid"@, JsonValue::Number(i32_text(main_pid))),
        ("processes"@, JsonValue::Array(process_values(c, shown_rows(c, main_pid, rows)))),
        ("total_memory_mb"@, JsonValue::Number(total.memory)),
    ] + figure_members(c, total, total_keys())
}

/// The JSON value of a tree.
pub open spec fn entry_value(c: ConfigModel, main_pid: i32, rows: Seq<RowModel>, total: FiguresModel) -> JsonValue {
    JsonValue::Object(entry_members(c, main_pid, rows, total))
}

proof fn lemma_entry_head()
    ensures
        "{\"main_pid\":"@ == seq!['{'] + quoted("main_pid"@) + seq![':'],
        ",\"processes\":["@ == seq![','] + quoted("processes"@) + seq![':', '['],
        "],\"total_memory_mb\":"@ == seq![']', ','] + quoted("total_memory_mb"@) + seq![':'],
        "}"@ == seq!['}'],
{
    assert("{\"main_pid\":"@ == seq!['{'] + quoted("main_pid"@) + seq![':']) by {
        reveal_strlit("main_pid");
        reveal_strlit("{\"main_pid\":");
        lemma_escaped_plain("main_pid"@);
        assert("{\"main_pid\":"@ =~= seq!['{'] + quoted("main_pid"@) + seq![':']);
    }
    assert(",\"processes\":["@ == seq![','] + quoted("processes"@) + seq![':', '[']) by {
        reveal_strlit("processes");
        reveal_strlit(",\"processes\":[");
        lemma_escaped_plain("processes"@);
        assert(",\"processes\":["@ =~= seq![','] + quoted("processes"@) + seq![':', '[']);
    }
    assert("],\"total_memory_mb\":"@ == seq![']', ','] + quoted("total_memory_mb"@) + seq![':']) by {
        reveal_strlit("total_memory_mb");
        reveal_strlit("],\"total_memory_mb\":");
        lemma_escaped_plain("total_memory_mb"@);
        assert("],\"total_memory_mb\":"@ =~= seq![']', ','] + quoted("total_memory_mb"@) + seq![':']);
    }
    assert("}"@ == seq!['}']) by {
        reveal_strlit("}");
        assert("}"@ =~= seq!['}']);
    }
}

/// The figure members of a total have the text that `json_entry` writes
/// after the total memory.
proof fn lemma_total_figures(c: ConfigModel, f: FiguresModel)
    ensures
        prefixed(member_texts(figure_members(c, f, total_keys())), ',') == json_total_figures(c, f),
{
    lemma_total_literals();
    lemma_optional_text(figure_switches(c, f), total_keys(), total_lits(), figure_values(f));
    lemma_figures_with(c, f, total_lits(), json_total_figures(c, f));
}

/// The texts of the values of processes are the objects that
/// `json_process` writes.
proof fn lemma_process_values_text(c: ConfigModel, rows: Seq<RowModel>)
    ensures
        item_texts(process_values(c, rows)) == rows.map_values(|r: RowModel| json_process_text(c, r)),
{
    assert forall|i: int| 0 <= i < rows.len() implies #[trigger] item_texts(process_values(c, rows))[i]
        == json_process_text(c, rows[i]) by {
        lemma_process_value_text(c, rows[i]);
    }
    assert(item_texts(process_values(c, rows)) =~= rows.map_values(|r: RowModel| json_process_text(c, r)));
}

proof fn lemma_entry_join(c: ConfigModel, main_pid: i32, rows: Seq<RowModel>, total: FiguresModel)
    ensures
        join_with(member_texts(entry_members(c, main_pid, rows, total)), ',') == member_text(
            "main_pid"@,
            i32_text(main_pid),
        ) + (seq![','] + member_text(
            "processes"@,
            seq!['['] + join_with(
                shown_rows(c, main_pid, rows).map_values(|r: RowModel| json_process_text(c, r)),
                ',',
            ) + seq![']'],
        ) + seq![','] + member_text("total_memory_mb"@, total.memory)) + json_total_figures(c, total),
{
    let shown = shown_rows(c, main_pid, rows);
    let figs = figure_members(c, total, total_keys());
    let base = seq![
        ("main_pid"@, JsonValue::Number(i32_text(main_pid))),
        ("processes"@, JsonValue::Array(process_values(c, shown))),
        ("total_memory_mb"@, JsonValue::Number(total.memory)),
    ];
    let ms = entry_members(c, main_pid, rows, total);
    lemma_process_values_text(c, shown);
    let m0 = member_text("main_pid"@, i32_text(main_pid));
    let m1 = member_text(
        "processes"@,
        seq!['['] + join_with(shown.map_values(|r: RowModel| json_process_text(c, r)), ',') + seq![']'],
    );
    let m2 = member_text("total_memory_mb"@, total.memory);
    assert(json_text(JsonValue::Array(process_values(c, shown))) == seq!['['] + join_with(
        shown.map_values(|r: RowModel| json_process_text(c, r)),
        ',',
    ) + seq![']']);
    lemma_member_concat(base, figs);
    assert(member_texts(base) =~= seq![m0, m1, m2]);
    lemma_join_first(member_texts(ms), ',');
    assert(member_texts(ms).skip(1) =~= seq![m1, m2] + member_texts(figs));
    lemma_prefixed_concat(seq![m1, m2], member_texts(figs), ',');
    lemma_prefixed_two(m1, m2, ',');
    lemma_total_figures(c, total);
    assert(member_texts(ms)[0] == m0);
}

proof fn lemma_entry_algebra(
    qa: Seq<char>,
    qb: Seq<char>,
    qc: Seq<char>,
    i: Seq<char>,
    j: Seq<char>,
    mem: Seq<char>,
    rest: Seq<char>,
)
    ensures
        seq!['{'] + ((qa + seq![':'] + i) + (seq![','] + (qb + seq![':'] + (seq!['['] + j + seq![']']))
            + seq![','] + (qc + seq![':'] + mem)) + rest) + seq!['}'] == (seq!['{'] + qa + seq![':']) + i
            + (seq![','] + qb + seq![':', '[']) + j + (seq![']', ','] + qc + seq![':']) + mem + rest
            + seq!['}'],
{
    assert(seq!['{'] + ((qa + seq![':'] + i) + (seq![','] + (qb + seq![':'] + (seq!['['] + j + seq![']']))
        + seq![','] + (qc + seq![':'] + mem)) + rest) + seq!['}'] =~= (seq!['{'] + qa + seq![':']) + i
        + (seq![','] + qb + seq![':', '[']) + j + (seq![']', ','] + qc + seq![':']) + mem + rest
        + seq!['}']);
}

/// The JSON text of the value of a tree is the object that `json_entry`
/// writes.
pub proof fn lemma_entry_value_text(c: ConfigModel, main_pid: i32, rows: Seq<RowModel>, total: FiguresModel)
    ensures
        json_text(entry_value(c, main_pid, rows, total)) == json_entry_text(c, main_pid, rows, total),
{
    lemma_entry_join(c, main_pid, rows, total);
    lemma_entry_head();
    lemma_entry_algebra(
        quoted("main_pid"@),
        quoted("processes"@),
        quoted("total_memory_mb"@),
        i32_text(main_pid),
        join_with(shown_rows(c, main_pid, rows).map_values(|r: RowModel| json_process_text(c, r)), ','),
        total.memory,
        json_total_figures(c, total),
    );
}

/// The figures of a process or of a total are all written as JSON numbers.
pub open spec fn figures_are_numbers(f: FiguresModel) -> bool {
    &&& is_json_number(f.memory)
    &&& (f.peak matches Some(p) ==> is_json_number(p))
    &&& is_json_number(f.cpu)
    &&& is_json_number(f.read)
    &&& is_json_number(f.write)
    &&& is_json_number(f.swap)
}

proof fn lemma_optional_members_well_formed(on: Seq<bool>, keys: Seq<Seq<char>>, values: Seq<Seq<char>>)
    requires
        forall|k: int| 0 <= k < on.len() && #[trigger] on[k] ==> is_json_number(values[k]),
    ensures
        forall|i: int|
            0 <= i < optional_members(on, keys, values).len() ==> well_formed(
                #[trigger] optional_members(on, keys, values)[i].1,
            ),
    decreases on.len(),
{
    if on.len() > 0 {
        let k = on.len() - 1;
        assert forall|j: int| 0 <= j < on.drop_last().len() && #[trigger] on.drop_last()[j] implies is_json_number(values[j]) by {
            assert(on[j] == on.drop_last()[j]);
        }
        lemma_optional_members_well_formed(on.drop_last(), keys, values);
        let front = optional_members(on.drop_last(), keys, values);
        let last: Seq<(Seq<char>, JsonValue)> = if on[k] {
            seq![(keys[k], JsonValue::Number(values[k]))]
        } else {
            Seq::empty()
        };
        assert(optional_members(on, keys, values) == front + last);
        assert forall|i: int| 0 <= i < (front + last).len() implies well_formed(#[trigger] (front + last)[i].1) by {
            if i < front.len() {
                assert((front + last)[i] == front[i]);
            } else {
                assert((front + last)[i] == last[i - front.len()]);
                assert(on[k]);
            }
        }
    }
}

proof fn lemma_figure_members_well_formed(c: ConfigModel, f: FiguresModel, keys: Seq<Seq<char>>)
    requires
        figures_are_numbers(f),
    ensures
        forall|i: int|
            0 <= i < figure_members(c, f, keys).len() ==> well_formed(#[trigger] figure_members(c, f, keys)[i].1),
{
    let on = figure_switches(c, f);
    let v = figure_values(f);
    assert forall|k: int| 0 <= k < on.len() && #[trigger] on[k] implies is_json_number(v[k]) by {
        if k == 0 {
            assert(f.peak is Some);
        }
    }
    lemma_optional_members_well_formed(on, keys, v);
}

proof fn lemma_process_well_formed(c: ConfigModel, r: RowModel)
    requires
        figures_are_numbers(r.figures),
    ensures
        well_formed(process_value(c, r)),
{
    let figs = figure_members(c, r.figures, process_keys());
    let ms = process_members(c, r);
    lemma_figure_members_well_formed(c, r.figures, process_keys());
    lemma_i32_text_is_json_number(r.pid);
    assert forall|i: int| 0 <= i < ms.len() implies well_formed(#[trigger] ms[i].1) by {
        if i >= 3 {
            assert(ms[i] == figs[i - 3]);
        }
    }
}

/// What holds of every item of a list holds of every item that a filter
/// keeps.
proof fn lemma_filter_keeps<A>(s: Seq<A>, keep: spec_fn(A) -> bool, p: spec_fn(A) -> bool)
    requires
        forall|i: int| 0 <= i < s.len() ==> p(#[trigger] s[i]),
    ensures
        forall|i: int| 0 <= i < s.filter(keep).len() ==> p(#[trigger] s.filter(keep)[i]),
    decreases s.len(),
{
    reveal_with_fuel(Seq::<_>::filter, 1);
    if s.len() > 0 {
        let t = s.drop_last();
        assert forall|i: int| 0 <= i < t.len() implies p(#[trigger] t[i]) by {
            assert(t[i] == s[i]);
            assert(p(s[i]));
        }
        lemma_filter_keeps(t, keep, p);
        let u = t.filter(keep);
        assert(p(s[s.len() - 1]));
        assert forall|i: int| 0 <= i < s.filter(keep).len() implies p(#[trigger] s.filter(keep)[i]) by {
            if keep(s.last()) {
                assert(s.filter(keep) == u.push(s.last()));
                if i < u.len() {
                    assert(s.filter(keep)[i] == u[i]);
                }
            } else {
                assert(s.filter(keep) == u);
            }
        }
    }
}

proof fn lemma_entry_well_formed(c: ConfigModel, main_pid: i32, rows: Seq<RowModel>, total: FiguresModel)
    requires
        forall|i: int| 0 <= i < rows.len() ==> figures_are_numbers(#[trigger] rows[i].figures),
        figures_are_numbers(total),
    ensures
        well_formed(entry_value(c, main_pid, rows, total)),
{
    let shown = shown_rows(c, main_pid, rows);
    let vals = process_values(c, shown);
    let numbers = |r: RowModel| figures_are_numbers(r.figures);
    assert forall|i: int| 0 <= i < rows.len() implies #[trigger] numbers(rows[i]) by {}
    lemma_filter_keeps(rows, |r: RowModel| c.children || r.pid == main_pid, numbers);
    assert forall|i: int| 0 <= i < vals.len() implies well_formed(#[trigger] vals[i]) by {
        assert(numbers(shown[i]));
        lemma_process_well_formed(c, shown[i]);
    }
    assert(well_formed(JsonValue::Array(vals)));
    let figs = figure_members(c, total, total_keys());
    let ms = entry_members(c, main_pid, rows, total);
    lemma_figure_members_well_formed(c, total, total_keys());
    lemma_i32_text_is_json_number(main_pid);
    assert forall|i: int| 0 <= i < ms.len() implies well_formed(#[trigger] ms[i].1) by {
        if i >= 3 {
            assert(ms[i] == figs[i - 3]);
        }
    }
}

/// The JSON object of one process, as `json_process` writes it, is the text
/// of the process's JSON value, which is well formed when the process's
/// figures are written as JSON numbers.
pub proof fn lemma_json_process_is_json(c: ConfigModel, r: RowModel)
    ensures
        json_process_text(c, r) == json_text(process_value(c, r)),
        figures_are_numbers(r.figures) ==> well_formed(process_value(c, r)),
{
    lemma_process_value_text(c, r);
    if figures_are_numbers(r.figures) {
        lemma_process_well_formed(c, r);
    }
}

/// The JSON object of a tree, as `json_entry` writes it, is the text of the
/// tree's JSON value, which is well formed when the figures of its rows and
/// of its total are written as JSON numbers.
pub proof fn lemma_json_entry_is_json(c: ConfigModel, main_pid: i32, rows: Seq<RowModel>, total: FiguresModel)
    ensures
        json_entry_text(c, main_pid, rows, total) == json_text(entry_value(c, main_pid, rows, total)),
        (forall|i: int| 0 <= i < rows.len() ==> figures_are_numbers(#[trigger] rows[i].figures))
            && figures_are_numbers(total) ==> well_formed(entry_value(c, main_pid, rows, total)),
{
    lemma_entry_value_text(c, main_pid, rows, total);
    if (forall|i: int| 0 <= i < rows.len() ==> figures_are_numbers(#[trigger] rows[i].figures))
        && figures_are_numbers(total) {
        lemma_entry_well_formed(c, main_pid, rows, total);
    }
}

/// The JSON array that `json_document` writes of the texts of values is the
/// text of the array of those values, well formed when they all are.
pub proof fn lemma_json_document_is_json(entries: Seq<Seq<char>>, values: Seq<JsonValue>)
    requires
        entries.len() == values.len(),
        forall|i: int| 0 <= i < entries.len() ==> #[trigger] entries[i] == json_text(values[i]),
    ensures
        "["@ + join_with(entries, ',') + "]"@ == json_text(JsonValue::Array(values)),
        well_formed(JsonValue::Array(values)) == (forall|i: int| 0 <= i < values.len() ==> well_formed(#[trigger] values[i])),
{
    assert(item_texts(values) =~= entries);
    reveal_strlit("[");
    reveal_strlit("]");
    assert("["@ =~= seq!['[']);
    assert("]"@ =~= seq![']']);
}

} // verus!
