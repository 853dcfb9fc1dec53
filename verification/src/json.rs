//! Test results as JSON, one object per line.

use vstd::prelude::*;

use crate::cgroup::ResourceStats;
use crate::number::{decimal, decimal_chars};
use crate::order::{lemma_text_order, sort, stably_sorted, text_before, text_less, Ordered};
use crate::runner::TestResult;
use crate::text::{chars_of, copy_range, ends_with, extend, extend_str, has_suffix, join, join_strings, starts_with, string_of, texts};
use crate::utf8::{lossy, lossy_text};

verus! {

/// The hexadecimal digit of a number below 16.
pub open spec fn hex_digit(n: int) -> char {
    if n < 10 {
        (48 + n) as u8 as char
    } else {
        (87 + n) as u8 as char
    }
}

/// How a character stands in a JSON string.
pub open spec fn escaped_char(c: char) -> Seq<char> {
    if c == '"' {
        seq!['\\', '"']
    } else if c == '\\' {
        seq!['\\', '\\']
    } else if c == '\n' {
        seq!['\\', 'n']
    } else if c == '\r' {
        seq!['\\', 'r']
    } else if c == '\t' {
        seq!['\\', 't']
    } else if (c as u32) < 0x20 {
        seq!['\\', 'u', '0', '0', hex_digit(c as u32 as int / 16), hex_digit(c as u32 as int % 16)]
    } else {
        seq![c]
    }
}

/// How a text stands in a JSON string, without the quotes around it.
pub open spec fn json_escaped(s: Seq<char>) -> Seq<char>
    decreases s.len(),
{
    if s.len() == 0 {
        s
    } else {
        escaped_char(s[0]) + json_escaped(s.drop_first())
    }
}

/// The value of a hexadecimal digit.
pub open spec fn hex_value(c: char) -> Option<int> {
    if '0' <= c <= '9' {
        Some(c as u32 - 48)
    } else if 'a' <= c <= 'f' {
        Some(c as u32 - 87)
    } else {
        None
    }
}

/// The character that the escape at the beginning of `s` stands for, and the length of
/// the escape; of the escapes by number, those below 256.
pub open spec fn escape_at(s: Seq<char>) -> Option<(char, int)> {
    if s.len() < 2 || s[0] != '\\' {
        None
    } else if s[1] == '"' || s[1] == '\\' {
        Some((s[1], 2))
    } else if s[1] == 'n' {
        Some(('\n', 2))
    } else if s[1] == 'r' {
        Some(('\r', 2))
    } else if s[1] == 't' {
        Some(('\t', 2))
    } else if s[1] == 'u' && s.len() >= 6 && s[2] == '0' && s[3] == '0' {
        match (hex_value(s[4]), hex_value(s[5])) {
            (Some(h), Some(l)) => Some(((h * 16 + l) as u8 as char, 6)),
            _ => None,
        }
    } else {
        None
    }
}

/// The text that the inside of a JSON string stands for; `None` where it holds a quote,
/// a control character or a broken escape.
pub open spec fn json_value(s: Seq<char>) -> Option<Seq<char>>
    decreases s.len(),
{
    if s.len() == 0 {
        Some(s)
    } else if s[0] == '\\' {
        match escape_at(s) {
            Some((c, n)) => if 0 < n <= s.len() {
                match json_value(s.skip(n)) {
                    Some(t) => Some(seq![c] + t),
                    None => None,
                }
            } else {
                None
            },
            None => None,
        }
    } else if s[0] == '"' || (s[0] as u32) < 0x20 {
        None
    } else {
        match json_value(s.drop_first()) {
            Some(t) => Some(seq![s[0]] + t),
            None => None,
        }
    }
}

/// An escaped text is the inside of a JSON string, and stands for the text.
pub proof fn lemma_json_round_trip(s: Seq<char>)
    ensures
        json_value(json_escaped(s)) == Some(s),
    decreases s.len(),
{
    if s.len() > 0 {
        let c = s[0];
        let rest = json_escaped(s.drop_first());
        let e = escaped_char(c);
        let all = json_escaped(s);
        lemma_json_round_trip(s.drop_first());
        assert(all == e + rest);
        assert(all.skip(e.len() as int) =~= rest);
        assert(seq![c] + s.drop_first() =~= s);
        if e.len() == 1 {
            assert(all.drop_first() =~= rest);
            assert(all[0] == c);
        } else if e.len() == 6 {
            let n = c as u32;
            assert(n < 0x20);
            vstd::utf8::char_u32_cast(c, n);
            let h = (n / 16) as int;
            let l = (n % 16) as int;
            assert(all[4] == hex_digit(h) && all[5] == hex_digit(l));
            lemma_hex(h);
            lemma_hex(l);
            assert(h * 16 + l == n);
            lemma_small_char(c);
            assert(escape_at(all) == Some((c, 6int)));
        } else {
            assert(escape_at(all) == Some((c, 2int)));
        }
    }
}

proof fn lemma_hex(n: int)
    requires
        0 <= n < 16,
    ensures
        hex_value(hex_digit(n)) == Some(n),
{
    let d: u8 = if n < 10 {
        (48 + n) as u8
    } else {
        (87 + n) as u8
    };
    assert(hex_digit(n) == d as char);
    assert((d as char) as u32 == d as u32);
}

proof fn lemma_small_char(c: char)
    requires
        (c as u32) < 0x20,
    ensures
        (c as u32) as u8 as char == c,
{
    let d = (c as u32) as u8;
    assert(d as u32 == c as u32);
    assert((d as char) as u32 == c as u32);
    vstd::utf8::char_u32_cast(c, c as u32);
    vstd::utf8::char_u32_cast(d as char, c as u32);
}

fn push_hex(out: &mut Vec<char>, n: u32)
    requires
        n < 16,
    ensures
        final(out)@ == old(out)@.push(hex_digit(n as int)),
{
    let d: u8 = if n < 10 {
        48 + n as u8
    } else {
        87 + n as u8
    };
    out.push(d as char);
}

fn push_escaped(out: &mut Vec<char>, c: char)
    ensures
        final(out)@ == old(out)@ + escaped_char(c),
{
    let n: u32 = c as u32;
    if c == '"' || c == '\\' {
        out.push('\\');
        out.push(c);
    } else if c == '\n' {
        out.push('\\');
        out.push('n');
    } else if c == '\r' {
        out.push('\\');
        out.push('r');
    } else if c == '\t' {
        out.push('\\');
        out.push('t');
    } else if n < 0x20 {
        out.push('\\');
        out.push('u');
        out.push('0');
        out.push('0');
        push_hex(out, n / 16);
        push_hex(out, n % 16);
    } else {
        out.push(c);
    }
    assert(out@ =~= old(out)@ + escaped_char(c));
}

/// Escape a string for inclusion as a JSON string value (without surrounding quotes).
pub fn json_escape(s: &str) -> (r: String)
    ensures
        r@ == json_escaped(s@),
{
    let v = chars_of(s);
    let mut out: Vec<char> = Vec::new();
    let mut i: usize = 0;
    assert(v@.skip(0) =~= v@);
    assert(out@ + json_escaped(v@) =~= json_escaped(v@));
    while i < v.len()
        invariant
            i <= v@.len(),
            json_escaped(v@) == out@ + json_escaped(v@.skip(i as int)),
        decreases v@.len() - i,
    {
        let ghost before = out@;
        assert(v@.skip(i as int).drop_first() =~= v@.skip(i + 1));
        push_escaped(&mut out, v[i]);
        i = i + 1;
        assert(json_escaped(v@) =~= out@ + json_escaped(v@.skip(i as int)));
    }
    assert(v@.skip(i as int) =~= Seq::<char>::empty());
    assert(out@ =~= json_escaped(v@));
    string_of(out.as_slice())
}

/// The log of a traced command: the name of its file, and its contents.
#[derive(Debug)]
pub struct StraceLog {
    pub name: Vec<u8>,
    pub content: String,
}

impl Ordered for StraceLog {
    open spec fn before(self, other: Self) -> bool {
        text_less(self.name@, other.name@)
    }

    proof fn lemma_irreflexive(a: Self) {
        lemma_text_order::<u8>();
        let t = |a: Seq<u8>, b: Seq<u8>| text_less(a, b);
        assert(!t(a.name@, a.name@));
    }

    proof fn lemma_weak(a: Self, b: Self, c: Self) {
        lemma_text_order::<u8>();
        let t = |a: Seq<u8>, b: Seq<u8>| text_less(a, b);
        let (x, y, z) = (a.name@, b.name@, c.name@);
        assert(t(x, z));
        assert(x == y || t(x, y) || t(y, x));
        if t(y, x) {
            assert(t(y, z));
        }
    }

    proof fn lemma_transitive(a: Self, b: Self, c: Self) {
        lemma_text_order::<u8>();
        let t = |a: Seq<u8>, b: Seq<u8>| text_less(a, b);
        assert(t(a.name@, b.name@) && t(b.name@, c.name@));
        assert(t(a.name@, c.name@));
    }

    fn precedes(&self, other: &Self) -> (r: bool) {
        text_before(self.name.as_slice(), other.name.as_slice())
    }
}

/// The name of a command, from the name of its log.
pub open spec fn log_key(name: Seq<char>) -> Seq<char> {
    if ends_with(name, ".log"@) {
        name.take(name.len() - ".log"@.len())
    } else {
        name
    }
}

/// A key and a text of a JSON object.
pub open spec fn pair_text(key: Seq<char>, value: Seq<char>) -> Seq<char> {
    "\""@ + json_escaped(key) + "\":\""@ + json_escaped(value) + "\""@
}

/// The pairs of an object with the traced commands.
pub open spec fn strace_pairs(logs: Seq<StraceLog>) -> Seq<Seq<char>> {
    logs.map(|_i: int, l: StraceLog| pair_text(log_key(lossy(l.name@)), l.content@))
}

/// A JSON object of these pairs.
pub open spec fn object_text(pairs: Seq<Seq<char>>) -> Seq<char> {
    "{"@ + join(pairs, ","@) + "}"@
}

fn object(pairs: &Vec<String>) -> (r: String)
    ensures
        r@ == object_text(texts(pairs@)),
{
    let mut v = chars_of("{");
    let inner = join_strings(pairs, ",");
    extend_str(&mut v, inner.as_str());
    extend_str(&mut v, "}");
    string_of(v.as_slice())
}

fn strace_object(logs: Vec<StraceLog>) -> (r: String)
    ensures
        exists|sorted: Seq<StraceLog>|
            #[trigger] stably_sorted(logs@, sorted) && r@ == object_text(strace_pairs(sorted)),
{
    let logs = sort(logs);
    let ghost all = strace_pairs(logs@);
    let mut pairs: Vec<String> = Vec::new();
    let mut i: usize = 0;
    assert(texts(pairs@) =~= all.take(0));
    while i < logs.len()
        invariant
            i <= logs@.len(),
            all == strace_pairs(logs@),
            texts(pairs@) == all.take(i as int),
        decreases logs@.len() - i,
    {
        let name = lossy_text(logs[i].name.as_slice());
        let n = chars_of(name.as_str());
        let suffix = chars_of(".log");
        let keep: usize = if has_suffix(n.as_slice(), suffix.as_slice()) {
            n.len() - suffix.len()
        } else {
            n.len()
        };
        let key = copy_range(n.as_slice(), 0, keep);
        assert(key@ =~= log_key(n@));
        let key = string_of(key.as_slice());
        let k = json_escape(key.as_str());
        let c = json_escape(logs[i].content.as_str());
        let mut v = chars_of("\"");
        extend_str(&mut v, k.as_str());
        extend_str(&mut v, "\":\"");
        extend_str(&mut v, c.as_str());
        extend_str(&mut v, "\"");
        let s = string_of(v.as_slice());
        let ghost before = pairs@;
        pairs.push(s);
        i = i + 1;
        assert(texts(pairs@) =~= texts(before).push(s@));
        assert(all.take(i as int) =~= all.take(i - 1).push(all[i - 1]));
    }
    assert(all.take(i as int) =~= all);
    object(&pairs)
}

/// A key and a number of a JSON object, where there is a number.
pub open spec fn field_texts(before: Seq<Seq<char>>, key: Seq<char>, n: Option<u64>) -> Seq<Seq<char>> {
    match n {
        Some(v) => before.push("\""@ + key + "\":"@ + decimal(v as nat)),
        None => before,
    }
}

/// The resources as a JSON object, or `null`.
pub open spec fn resources_text(r: Option<ResourceStats>) -> Seq<char> {
    match r {
        Some(r) => {
            let f = Seq::<Seq<char>>::empty();
            let f = field_texts(f, "cpu_user_usec"@, r.cpu_user_usec);
            let f = field_texts(f, "cpu_system_usec"@, r.cpu_system_usec);
            let f = field_texts(f, "memory_peak"@, r.memory_peak);
            let f = field_texts(f, "io_read_bytes"@, r.io_read_bytes);
            let f = field_texts(f, "io_write_bytes"@, r.io_write_bytes);
            let f = field_texts(f, "pids_peak"@, r.pids_peak);
            object_text(f)
        },
        None => "null"@,
    }
}

fn push_field(fields: &mut Vec<String>, key: &str, n: Option<u64>)
    ensures
        texts(final(fields)@) == field_texts(texts(old(fields)@), key@, n),
{
    if let Some(v) = n {
        let ghost before = fields@;
        let mut t = chars_of("\"");
        extend_str(&mut t, key);
        extend_str(&mut t, "\":");
        let d = decimal_chars(v as u128);
        extend(&mut t, d.as_slice());
        let s = string_of(t.as_slice());
        fields.push(s);
        assert(texts(fields@) =~= texts(before).push(s@));
    }
}

fn resources_json(r: &Option<ResourceStats>) -> (s: String)
    ensures
        s@ == resources_text(*r),
{
    match r {
        Some(r) => {
            let mut f: Vec<String> = Vec::new();
            assert(texts(f@) =~= Seq::<Seq<char>>::empty());
            push_field(&mut f, "cpu_user_usec", r.cpu_user_usec);
            push_field(&mut f, "cpu_system_usec", r.cpu_system_usec);
            push_field(&mut f, "memory_peak", r.memory_peak);
            push_field(&mut f, "io_read_bytes", r.io_read_bytes);
            push_field(&mut f, "io_write_bytes", r.io_write_bytes);
            push_field(&mut f, "pids_peak", r.pids_peak);
            object(&f)
        },
        None => "null".to_owned(),
    }
}

/// How a test ended, in a word.
pub open spec fn status_word(passed: bool, timed_out: bool) -> Seq<char> {
    if passed {
        "pass"@
    } else if timed_out {
        "timeout"@
    } else {
        "fail"@
    }
}

/// A test result as a JSON object. `stdout` and `xtrace` are the contents of the test's
/// logs, `logs` those of its traced commands in the order of their names.
pub open spec fn result_json(
    r: TestResult,
    stdout: Seq<u8>,
    xtrace: Seq<u8>,
    logs: Seq<StraceLog>,
) -> Seq<char> {
    "{\"name\":\""@ + json_escaped(r.name@) + "\",\"file\":\""@ + json_escaped(lossy(r.source_path@))
        + "\",\"status\":\""@ + status_word(r.passed, r.timed_out) + "\",\"duration_ms\":"@ + decimal(
        (r.duration / 1_000_000) as nat,
    ) + ",\"stdout\":\""@ + json_escaped(lossy(stdout)) + "\",\"xtrace\":\""@ + json_escaped(
        lossy(xtrace),
    ) + "\",\"strace\":"@ + object_text(strace_pairs(logs)) + ",\"resources\":"@ + resources_text(
        r.resources,
    ) + "}"@
}

fn push_log(v: &mut Vec<char>, bytes: &[u8])
    ensures
        final(v)@ == old(v)@ + json_escaped(lossy(bytes@)),
{
    let text = lossy_text(bytes);
    let text = json_escape(text.as_str());
    extend_str(v, text.as_str());
}

/// A test result as a JSON object on one line, from the contents of the test's logs.
/// Bytes that are not UTF-8 are replaced, so a log with binary output is still reported.
pub fn test_result_json(result: &TestResult, stdout: &[u8], xtrace: &[u8], logs: Vec<StraceLog>) -> (r:
    String)
    ensures
        exists|sorted: Seq<StraceLog>|
            #[trigger] stably_sorted(logs@, sorted) && r@ == result_json(
                *result,
                stdout@,
                xtrace@,
                sorted,
            ),
{
    let ghost all = logs@;
    let strace = strace_object(logs);
    let ghost sorted = choose|sorted: Seq<StraceLog>|
        #[trigger] stably_sorted(all, sorted) && strace@ == object_text(strace_pairs(sorted));
    let mut v = chars_of("{\"name\":\"");
    let text = json_escape(result.name.as_str());
    extend_str(&mut v, text.as_str());
    extend_str(&mut v, "\",\"file\":\"");
    let file = result.source_path.display();
    let text = json_escape(file.as_str());
    extend_str(&mut v, text.as_str());
    extend_str(&mut v, "\",\"status\":\"");
    if result.passed {
        extend_str(&mut v, "pass");
    } else if result.timed_out {
        extend_str(&mut v, "timeout");
    } else {
        extend_str(&mut v, "fail");
    }
    extend_str(&mut v, "\",\"duration_ms\":");
    let ms = decimal_chars(result.duration / 1_000_000);
    extend(&mut v, ms.as_slice());
    extend_str(&mut v, ",\"stdout\":\"");
    push_log(&mut v, stdout);
    extend_str(&mut v, "\",\"xtrace\":\"");
    push_log(&mut v, xtrace);
    extend_str(&mut v, "\",\"strace\":");
    extend_str(&mut v, strace.as_str());
    extend_str(&mut v, ",\"resources\":");
    let resources = resources_json(&result.resources);
    extend_str(&mut v, resources.as_str());
    extend_str(&mut v, "}");
    let r = string_of(v.as_slice());
    assert(stably_sorted(all, sorted) && r@ == result_json(*result, stdout@, xtrace@, sorted));
    r
}

/// The text is on one line.
pub open spec fn is_one_line(s: Seq<char>) -> bool {
    forall|i: int| 0 <= i < s.len() ==> #[trigger] s[i] != '\n'
}

proof fn lemma_escaped_is_one_line(s: Seq<char>)
    ensures
        is_one_line(json_escaped(s)),
    decreases s.len(),
{
    if s.len() > 0 {
        lemma_escaped_is_one_line(s.drop_first());
        let e = escaped_char(s[0]);
        let n = s[0] as u32 as int;
        if n < 0x20 {
            lemma_hex(n / 16);
            lemma_hex(n % 16);
        }
        assert(is_one_line(e));
    }
}

proof fn lemma_join_is_one_line(v: Seq<Seq<char>>, sep: Seq<char>)
    requires
        is_one_line(sep),
        forall|i: int| 0 <= i < v.len() ==> is_one_line(#[trigger] v[i]),
    ensures
        is_one_line(join(v, sep)),
    decreases v.len(),
{
    if v.len() > 1 {
        let front = v.drop_last();
        assert forall|i: int| 0 <= i < front.len() implies is_one_line(#[trigger] front[i]) by {
            assert(front[i] == v[i]);
        }
        lemma_join_is_one_line(front, sep);
        assert(is_one_line(v[v.len() - 1]));
    }
}

proof fn lemma_decimal_is_one_line(n: nat)
    ensures
        is_one_line(decimal(n)),
{
    crate::number::lemma_decimal_round_trip(n);
    assert forall|i: int| 0 <= i < decimal(n).len() implies #[trigger] decimal(n)[i] != '\n' by {
        assert(crate::number::is_digit(decimal(n)[i]));
    }
}

proof fn lemma_object_is_one_line(v: Seq<Seq<char>>)
    requires
        forall|i: int| 0 <= i < v.len() ==> is_one_line(#[trigger] v[i]),
    ensures
        is_one_line(object_text(v)),
{
    reveal_strlit("{");
    reveal_strlit(",");
    reveal_strlit("}");
    lemma_join_is_one_line(v, ","@);
}

proof fn lemma_pair_is_one_line(key: Seq<char>, value: Seq<char>)
    ensures
        is_one_line(pair_text(key, value)),
{
    reveal_strlit("\"");
    reveal_strlit("\":\"");
    lemma_escaped_is_one_line(key);
    lemma_escaped_is_one_line(value);
}

proof fn lemma_field_is_one_line(before: Seq<Seq<char>>, key: Seq<char>, n: Option<u64>)
    requires
        is_one_line(key),
        forall|i: int| 0 <= i < before.len() ==> is_one_line(#[trigger] before[i]),
    ensures
        forall|i: int|
            0 <= i < field_texts(before, key, n).len() ==> is_one_line(
                #[trigger] field_texts(before, key, n)[i],
            ),
{
    reveal_strlit("\"");
    reveal_strlit("\":");
    if let Some(v) = n {
        lemma_decimal_is_one_line(v as nat);
        let f = field_texts(before, key, n);
        assert forall|i: int| 0 <= i < f.len() implies is_one_line(#[trigger] f[i]) by {
            if i < before.len() {
                assert(f[i] == before[i]);
            }
        }
    }
}

proof fn lemma_resources_are_one_line(r: Option<ResourceStats>)
    ensures
        is_one_line(resources_text(r)),
{
    reveal_strlit("null");
    reveal_strlit("cpu_user_usec");
    reveal_strlit("cpu_system_usec");
    reveal_strlit("memory_peak");
    reveal_strlit("io_read_bytes");
    reveal_strlit("io_write_bytes");
    reveal_strlit("pids_peak");
    if let Some(s) = r {
        let f0 = Seq::<Seq<char>>::empty();
        let f1 = field_texts(f0, "cpu_user_usec"@, s.cpu_user_usec);
        let f2 = field_texts(f1, "cpu_system_usec"@, s.cpu_system_usec);
        let f3 = field_texts(f2, "memory_peak"@, s.memory_peak);
        let f4 = field_texts(f3, "io_read_bytes"@, s.io_read_bytes);
        let f5 = field_texts(f4, "io_write_bytes"@, s.io_write_bytes);
        lemma_field_is_one_line(f0, "cpu_user_usec"@, s.cpu_user_usec);
        lemma_field_is_one_line(f1, "cpu_system_usec"@, s.cpu_system_usec);
        lemma_field_is_one_line(f2, "memory_peak"@, s.memory_peak);
        lemma_field_is_one_line(f3, "io_read_bytes"@, s.io_read_bytes);
        lemma_field_is_one_line(f4, "io_write_bytes"@, s.io_write_bytes);
        lemma_field_is_one_line(f5, "pids_peak"@, s.pids_peak);
        lemma_object_is_one_line(field_texts(f5, "pids_peak"@, s.pids_peak));
    }
}

/// A result takes one line, whatever the test has printed.
pub proof fn lemma_result_takes_one_line(
    r: TestResult,
    stdout: Seq<u8>,
    xtrace: Seq<u8>,
    logs: Seq<StraceLog>,
)
    ensures
        is_one_line(result_json(r, stdout, xtrace, logs)),
{
    reveal_strlit("{\"name\":\"");
    reveal_strlit("\",\"file\":\"");
    reveal_strlit("\",\"status\":\"");
    reveal_strlit("\",\"duration_ms\":");
    reveal_strlit(",\"stdout\":\"");
    reveal_strlit("\",\"xtrace\":\"");
    reveal_strlit("\",\"strace\":");
    reveal_strlit(",\"resources\":");
    reveal_strlit("}");
    reveal_strlit("pass");
    reveal_strlit("timeout");
    reveal_strlit("fail");
    lemma_escaped_is_one_line(r.name@);
    lemma_escaped_is_one_line(lossy(r.source_path@));
    lemma_escaped_is_one_line(lossy(stdout));
    lemma_escaped_is_one_line(lossy(xtrace));
    lemma_decimal_is_one_line((r.duration / 1_000_000) as nat);
    let pairs = strace_pairs(logs);
    assert forall|i: int| 0 <= i < pairs.len() implies is_one_line(#[trigger] pairs[i]) by {
        lemma_pair_is_one_line(log_key(lossy(logs[i].name@)), logs[i].content@);
    }
    lemma_object_is_one_line(pairs);
    lemma_resources_are_one_line(r.resources);
    assert(is_one_line(status_word(r.passed, r.timed_out)));
}

/// The text that a JSON string stands for whose inside begins here, and what comes after its
/// closing quote.
#[verifier::opaque]
pub open spec fn string_at(s: Seq<char>) -> (Seq<char>, Seq<char>)
    decreases s.len(),
{
    if s.len() == 0 {
        (s, s)
    } else if s[0] == '"' {
        (Seq::empty(), s.drop_first())
    } else {
        match escape_at(s) {
            Some((c, n)) => if 0 < n <= s.len() {
                let r = string_at(s.skip(n));
                (seq![c] + r.0, r.1)
            } else {
                (s, Seq::empty())
            },
            None => {
                let r = string_at(s.drop_first());
                (seq![s[0]] + r.0, r.1)
            },
        }
    }
}

proof fn lemma_escape_is_read(c: char, rest: Seq<char>)
    ensures
        ({
            let e = escaped_char(c);
            let s = e + rest;
            &&& e.len() > 0 && e[0] != '"'
            &&& e.len() == 1 ==> e[0] == c && escape_at(s) is None
            &&& e.len() > 1 ==> escape_at(s) == Some((c, e.len() as int))
        }),
{
    let e = escaped_char(c);
    let s = e + rest;
    if e.len() == 6 {
        let n = c as u32;
        vstd::utf8::char_u32_cast(c, n);
        let h = (n / 16) as int;
        let l = (n % 16) as int;
        assert(s[4] == hex_digit(h) && s[5] == hex_digit(l));
        lemma_hex(h);
        lemma_hex(l);
        assert(h * 16 + l == n);
        lemma_small_char(c);
        assert(escape_at(s) == Some((c, 6int)));
    } else if e.len() == 2 {
        assert(s[0] == e[0] && s[1] == e[1]);
    } else {
        assert(s[0] == c);
    }
}

proof fn lemma_string_is_read(v: Seq<char>, rest: Seq<char>)
    ensures
        string_at(json_escaped(v) + (seq!['"'] + rest)) == (v, rest),
    decreases v.len(),
{
    reveal_with_fuel(string_at, 2);
    let tail = seq!['"'] + rest;
    let s = json_escaped(v) + tail;
    if v.len() == 0 {
        assert(s =~= tail);
        assert(s.drop_first() =~= rest);
        assert(v =~= Seq::<char>::empty());
    } else {
        let w = v.drop_first();
        let e = escaped_char(v[0]);
        let more = json_escaped(w) + tail;
        lemma_string_is_read(w, rest);
        assert(s =~= e + more);
        lemma_escape_is_read(v[0], more);
        assert(s.skip(e.len() as int) =~= more);
        assert(s[0] == e[0]);
        if e.len() == 1 {
            assert(s.drop_first() =~= more);
        }
        assert(seq![v[0]] + w =~= v);
    }
}

/// A string stands after a piece of text, and is read from there.
proof fn lemma_string_after(before: Seq<char>, v: Seq<char>, rest: Seq<char>)
    ensures
        ({
            let s = before + (json_escaped(v) + (seq!['"'] + rest));
            &&& starts_with(s, before)
            &&& string_at(s.skip(before.len() as int)) == (v, rest)
        }),
{
    let s = before + (json_escaped(v) + (seq!['"'] + rest));
    assert(s.take(before.len() as int) =~= before);
    assert(s.skip(before.len() as int) =~= json_escaped(v) + (seq!['"'] + rest));
    lemma_string_is_read(v, rest);
}

proof fn lemma_plain_word(w: Seq<char>)
    requires
        forall|i: int| 0 <= i < w.len() ==> 'a' <= #[trigger] w[i] <= 'z',
    ensures
        json_escaped(w) == w,
    decreases w.len(),
{
    if w.len() > 0 {
        let u = w.drop_first();
        assert forall|i: int| 0 <= i < u.len() implies 'a' <= #[trigger] u[i] <= 'z' by {
            assert(u[i] == w[i + 1]);
        }
        lemma_plain_word(u);
        assert('a' <= w[0] <= 'z');
        assert(escaped_char(w[0]) =~= seq![w[0]]);
        assert(seq![w[0]] + u =~= w);
    }
}

/// How a test ended, as the status in a report says it.
pub open spec fn says(status: Seq<char>, r: TestResult) -> bool {
    &&& status == "pass"@ <==> r.passed
    &&& status == "timeout"@ <==> !r.passed && r.timed_out
    &&& status == "fail"@ <==> !r.passed && !r.timed_out
}

proof fn lemma_status_says(r: TestResult)
    ensures
        says(status_word(r.passed, r.timed_out), r),
        json_escaped(status_word(r.passed, r.timed_out)) == status_word(r.passed, r.timed_out),
{
    reveal_strlit("pass");
    reveal_strlit("timeout");
    reveal_strlit("fail");
    assert("pass"@[0] == 'p' && "fail"@[0] == 'f');
    lemma_plain_word(status_word(r.passed, r.timed_out));
}

/// What stands in a report from the output of the test on.
spec fn report_rest(r: TestResult, stdout: Seq<u8>, xtrace: Seq<u8>, logs: Seq<StraceLog>) -> Seq<char> {
    let q = seq!['"'];
    let last = ",\"strace\":"@ + object_text(strace_pairs(logs)) + ",\"resources\":"@ + resources_text(r.resources)
        + "}"@;
    let x = ",\"xtrace\":\""@ + (json_escaped(lossy(xtrace)) + (q + last));
    ",\"stdout\":\""@ + (json_escaped(lossy(stdout)) + (q + x))
}

proof fn lemma_regroup_first(
    q: Seq<char>,
    k1: Seq<char>,
    a: Seq<char>,
    k2: Seq<char>,
    b: Seq<char>,
    k3: Seq<char>,
    c: Seq<char>,
    k4: Seq<char>,
    d: Seq<char>,
    rest: Seq<char>,
)
    ensures
        k1 + a + (q + k2) + b + (q + k3) + c + (q + k4) + d + rest == k1 + (a + (q + (k2 + (b + (q + (k3 + (c
            + (q + (k4 + (d + rest)))))))))),
{
    let s = k4 + (d + rest);
    let t = k3 + (c + (q + s));
    let h2 = k1 + a + (q + k2) + b;
    let h3 = h2 + (q + k3) + c;
    assert(h3 + (q + k4) + d + rest =~= h3 + (q + s));
    assert(h3 + (q + s) =~= h2 + (q + t));
    assert(h2 + (q + t) =~= k1 + (a + (q + (k2 + (b + (q + t))))));
}

proof fn lemma_regroup_last(
    q: Seq<char>,
    head: Seq<char>,
    k1: Seq<char>,
    a: Seq<char>,
    k2: Seq<char>,
    b: Seq<char>,
    k3: Seq<char>,
    c: Seq<char>,
    k4: Seq<char>,
    d: Seq<char>,
    end: Seq<char>,
)
    ensures
        head + k1 + a + (q + k2) + b + (q + k3) + c + k4 + d + end == head + (k1 + (a + (q + (k2 + (b + (q + (
        k3 + c + k4 + d + end))))))),
{
    let last = k3 + c + k4 + d + end;
    let h = head + k1 + a;
    let h2 = h + (q + k2) + b;
    assert(h2 + (q + k3) + c + k4 + d + end =~= h2 + (q + last));
    let x = k2 + (b + (q + last));
    assert(h2 + (q + last) =~= h + (q + x));
    assert(h + (q + x) =~= head + (k1 + (a + (q + x))));
}

proof fn lemma_report_parts(r: TestResult, stdout: Seq<u8>, xtrace: Seq<u8>, logs: Seq<StraceLog>)
    ensures
        ({
            let q = seq!['"'];
            let d = ",\"duration_ms\":"@ + (decimal((r.duration / 1_000_000) as nat) + report_rest(
                r,
                stdout,
                xtrace,
                logs,
            ));
            let s = ",\"status\":\""@ + (status_word(r.passed, r.timed_out) + (q + d));
            let f = ",\"file\":\""@ + (json_escaped(lossy(r.source_path@)) + (q + s));
            result_json(r, stdout, xtrace, logs) == "{\"name\":\""@ + (json_escaped(r.name@) + (q + f))
        }),
{
    let q = seq!['"'];
    assert("\",\"file\":\""@ =~= q + ",\"file\":\""@) by {
        reveal_strlit("\",\"file\":\"");
        reveal_strlit(",\"file\":\"");
    }
    assert("\",\"status\":\""@ =~= q + ",\"status\":\""@) by {
        reveal_strlit("\",\"status\":\"");
        reveal_strlit(",\"status\":\"");
    }
    assert("\",\"duration_ms\":"@ =~= q + ",\"duration_ms\":"@) by {
        reveal_strlit("\",\"duration_ms\":");
        reveal_strlit(",\"duration_ms\":");
    }
    assert("\",\"xtrace\":\""@ =~= q + ",\"xtrace\":\""@) by {
        reveal_strlit("\",\"xtrace\":\"");
        reveal_strlit(",\"xtrace\":\"");
    }
    assert("\",\"strace\":"@ =~= q + ",\"strace\":"@) by {
        reveal_strlit("\",\"strace\":");
        reveal_strlit(",\"strace\":");
    }
    lemma_regroup_first(
        q,
        "{\"name\":\""@,
        json_escaped(r.name@),
        ",\"file\":\""@,
        json_escaped(lossy(r.source_path@)),
        ",\"status\":\""@,
        status_word(r.passed, r.timed_out),
        ",\"duration_ms\":"@,
        decimal((r.duration / 1_000_000) as nat),
        report_rest(r, stdout, xtrace, logs),
    );
    let head = "{\"name\":\""@ + json_escaped(r.name@) + "\",\"file\":\""@ + json_escaped(
        lossy(r.source_path@),
    ) + "\",\"status\":\""@ + status_word(r.passed, r.timed_out) + "\",\"duration_ms\":"@ + decimal(
        (r.duration / 1_000_000) as nat,
    );
    lemma_regroup_last(
        q,
        head,
        ",\"stdout\":\""@,
        json_escaped(lossy(stdout)),
        ",\"xtrace\":\""@,
        json_escaped(lossy(xtrace)),
        ",\"strace\":"@,
        object_text(strace_pairs(logs)),
        ",\"resources\":"@,
        resources_text(r.resources),
        "}"@,
    );
}

/// A report is read back key by key: the name and the file of the test, how it ended, its
/// milliseconds, its output and its trace, whatever they hold; then the traced commands and
/// the resources.
pub proof fn lemma_report_is_read_back(
    r: TestResult,
    stdout: Seq<u8>,
    xtrace: Seq<u8>,
    logs: Seq<StraceLog>,
)
    ensures
        ({
            let k1 = "{\"name\":\""@;
            let k2 = ",\"file\":\""@;
            let k3 = ",\"status\":\""@;
            let k4 = ",\"duration_ms\":"@;
            let k5 = ",\"stdout\":\""@;
            let k6 = ",\"xtrace\":\""@;
            let all = result_json(r, stdout, xtrace, logs);
            let name = string_at(all.skip(k1.len() as int));
            let file = string_at(name.1.skip(k2.len() as int));
            let status = string_at(file.1.skip(k3.len() as int));
            let millis = decimal((r.duration / 1_000_000) as nat);
            let after = status.1.skip((k4 + millis).len() as int);
            let out = string_at(after.skip(k5.len() as int));
            let trace = string_at(out.1.skip(k6.len() as int));
            &&& starts_with(all, k1) && name.0 == r.name@
            &&& starts_with(name.1, k2) && file.0 == lossy(r.source_path@)
            &&& starts_with(file.1, k3) && says(status.0, r)
            &&& starts_with(status.1, k4 + millis)
            &&& starts_with(after, k5) && out.0 == lossy(stdout)
            &&& starts_with(out.1, k6) && trace.0 == lossy(xtrace)
            &&& trace.1 == ",\"strace\":"@ + object_text(strace_pairs(logs)) + ",\"resources\":"@
                + resources_text(r.resources) + "}"@
        }),
{
    let q = seq!['"'];
    let millis = decimal((r.duration / 1_000_000) as nat);
    let last = ",\"strace\":"@ + object_text(strace_pairs(logs)) + ",\"resources\":"@ + resources_text(r.resources)
        + "}"@;
    let k4 = ",\"duration_ms\":"@;
    let x = ",\"xtrace\":\""@ + (json_escaped(lossy(xtrace)) + (q + last));
    let o = report_rest(r, stdout, xtrace, logs);
    let d = k4 + (millis + o);
    let word = status_word(r.passed, r.timed_out);
    let s = ",\"status\":\""@ + (word + (q + d));
    let f = ",\"file\":\""@ + (json_escaped(lossy(r.source_path@)) + (q + s));
    lemma_report_parts(r, stdout, xtrace, logs);
    lemma_status_says(r);
    lemma_string_after("{\"name\":\""@, r.name@, f);
    lemma_string_after(",\"file\":\""@, lossy(r.source_path@), s);
    lemma_string_after(",\"status\":\""@, word, d);
    lemma_string_after(",\"stdout\":\""@, lossy(stdout), x);
    lemma_string_after(",\"xtrace\":\""@, lossy(xtrace), last);
    assert(d =~= (k4 + millis) + o);
    assert(d.take((k4 + millis).len() as int) =~= k4 + millis);
    assert(d.skip((k4 + millis).len() as int) =~= o);
}

/// A number of the resources in a report.
pub open spec fn number_field(key: Seq<char>, n: u64) -> Seq<char> {
    "\""@ + key + "\":"@ + decimal(n as nat)
}

/// Every number that is known of the resources is in the report under its own name, and
/// nothing else is.
pub proof fn lemma_known_resources_are_reported(r: ResourceStats) -> (fields: Seq<Seq<char>>)
    ensures
        resources_text(Some(r)) == object_text(fields),
        r.cpu_user_usec matches Some(n) ==> fields.contains(number_field("cpu_user_usec"@, n)),
        r.cpu_system_usec matches Some(n) ==> fields.contains(number_field("cpu_system_usec"@, n)),
        r.memory_peak matches Some(n) ==> fields.contains(number_field("memory_peak"@, n)),
        r.io_read_bytes matches Some(n) ==> fields.contains(number_field("io_read_bytes"@, n)),
        r.io_write_bytes matches Some(n) ==> fields.contains(number_field("io_write_bytes"@, n)),
        r.pids_peak matches Some(n) ==> fields.contains(number_field("pids_peak"@, n)),
        fields.len() == known(r.cpu_user_usec) + known(r.cpu_system_usec) + known(r.memory_peak) + known(
            r.io_read_bytes,
        ) + known(r.io_write_bytes) + known(r.pids_peak),
{
    let f0 = Seq::<Seq<char>>::empty();
    let f1 = field_texts(f0, "cpu_user_usec"@, r.cpu_user_usec);
    let f2 = field_texts(f1, "cpu_system_usec"@, r.cpu_system_usec);
    let f3 = field_texts(f2, "memory_peak"@, r.memory_peak);
    let f4 = field_texts(f3, "io_read_bytes"@, r.io_read_bytes);
    let f5 = field_texts(f4, "io_write_bytes"@, r.io_write_bytes);
    let f6 = field_texts(f5, "pids_peak"@, r.pids_peak);
    lemma_field_is_there(f0, "cpu_user_usec"@, r.cpu_user_usec);
    lemma_field_is_there(f1, "cpu_system_usec"@, r.cpu_system_usec);
    lemma_field_is_there(f2, "memory_peak"@, r.memory_peak);
    lemma_field_is_there(f3, "io_read_bytes"@, r.io_read_bytes);
    lemma_field_is_there(f4, "io_write_bytes"@, r.io_write_bytes);
    lemma_field_is_there(f5, "pids_peak"@, r.pids_peak);
    f6
}

/// One where a number is known.
pub open spec fn known(n: Option<u64>) -> int {
    if n is Some {
        1
    } else {
        0
    }
}

proof fn lemma_field_is_there(before: Seq<Seq<char>>, key: Seq<char>, n: Option<u64>)
    ensures
        n matches Some(v) ==> field_texts(before, key, n).contains(number_field(key, v)),
        forall|t: Seq<char>| #[trigger] before.contains(t) ==> field_texts(before, key, n).contains(t),
        field_texts(before, key, n).len() == before.len() + known(n),
{
    let f = field_texts(before, key, n);
    if let Some(v) = n {
        assert(f[before.len() as int] == number_field(key, v));
    }
    assert forall|t: Seq<char>| #[trigger] before.contains(t) implies f.contains(t) by {
        let i = choose|i: int| 0 <= i < before.len() && before[i] == t;
        assert(f[i] == t);
    }
}

/// The log of a command is reported under the name of the command.
pub proof fn lemma_log_is_named_after_its_command(cmd: Seq<char>)
    ensures
        log_key(cmd + ".log"@) == cmd,
{
    let s = cmd + ".log"@;
    assert(s.skip(s.len() - ".log"@.len()) =~= ".log"@);
    assert(s.take(s.len() - ".log"@.len()) =~= cmd);
}

/// A text is read back from the JSON string that it is escaped for.
pub proof fn lemma_escape_is_undone(s: &str, r: String)
    requires
        call_ensures(json_escape, (s,), r),
    ensures
        json_value(r@) == Some(s@),
{
    lemma_json_round_trip(s@);
}

/// The report of a test carries its name, its file, its status and its logs, and the log of
/// every traced command, once each, in the order of their names.
pub proof fn lemma_report_of_a_test(
    result: &TestResult,
    stdout: &[u8],
    xtrace: &[u8],
    logs: Vec<StraceLog>,
    r: String,
) -> (sorted: Seq<StraceLog>)
    requires
        call_ensures(test_result_json, (result, stdout, xtrace, logs), r),
    ensures
        is_one_line(r@),
        sorted.to_multiset() == logs@.to_multiset(),
        forall|i: int, j: int|
            0 <= i < j < sorted.len() ==> !text_less((#[trigger] sorted[j]).name@, (#[trigger] sorted[i]).name@),
        ({
            let name = string_at(r@.skip("{\"name\":\""@.len() as int));
            let file = string_at(name.1.skip(",\"file\":\""@.len() as int));
            let status = string_at(file.1.skip(",\"status\":\""@.len() as int));
            let millis = decimal((result.duration / 1_000_000) as nat);
            let after = status.1.skip((",\"duration_ms\":"@ + millis).len() as int);
            let out = string_at(after.skip(",\"stdout\":\""@.len() as int));
            let trace = string_at(out.1.skip(",\"xtrace\":\""@.len() as int));
            &&& name.0 == result.name@
            &&& file.0 == lossy(result.source_path@)
            &&& says(status.0, *result)
            &&& starts_with(status.1, ",\"duration_ms\":"@ + millis)
            &&& out.0 == lossy(stdout@)
            &&& trace.0 == lossy(xtrace@)
            &&& trace.1 == ",\"strace\":"@ + object_text(strace_pairs(sorted)) + ",\"resources\":"@
                + resources_text(result.resources) + "}"@
        }),
{
    let sorted = choose|sorted: Seq<StraceLog>|
        #[trigger] stably_sorted(logs@, sorted) && r@ == result_json(*result, stdout@, xtrace@, sorted);
    lemma_report_is_read_back(*result, stdout@, xtrace@, sorted);
    lemma_result_takes_one_line(*result, stdout@, xtrace@, sorted);
    assert forall|i: int, j: int| 0 <= i < j < sorted.len() implies !text_less(
        (#[trigger] sorted[j]).name@,
        (#[trigger] sorted[i]).name@,
    ) by {
        assert(!sorted[j].before(sorted[i]));
    }
    sorted
}

} // verus!
