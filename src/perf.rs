//! Reader for `perf script` records: a header line, then for each frame,
//! innermost first, a symbol line and a source line, then an empty line.
use vstd::prelude::*;
use vstd::std_specs::iter::IteratorSpec;
use crate::ids::{frame_id_of, opt_view};
use crate::model::{ProfiledBinary, StackNodeData, StackTrace};
use crate::store::{
    binary_merged, frame_ids_of, frames_merged, nodes_merged, nodes_refused_at, trace_nodes, AggregationStore, StoreError,
};
use crate::symcache::SymbolCache;

verus! {

/// The characters of a line, in order.
pub fn chars_of(s: &str) -> (r: Vec<char>)
    ensures
        r@ == s@,
{
    let mut it = s.chars();
    let mut out: Vec<char> = Vec::new();
    loop
        invariant
            it.obeys_prophetic_iter_laws(),
            it.decrease() is Some,
            out@ + it.remaining() == s@,
        ensures
            out@ == s@,
        decreases it.decrease()->Some_0,
    {
        match it.next() {
            Some(c) => {
                out.push(c);
                assert(out@ + it.remaining() =~= s@);
            },
            None => {
                assert(out@ =~= s@);
                break;
            },
        }
    }
    out
}

/// Unicode `White_Space`.
pub open spec fn is_space(c: char) -> bool {
    let v = c as u32;
    ||| 9 <= v <= 13
    ||| v == 32
    ||| v == 0x85
    ||| v == 0xA0
    ||| v == 0x1680
    ||| 0x2000 <= v <= 0x200A
    ||| v == 0x2028
    ||| v == 0x2029
    ||| v == 0x202F
    ||| v == 0x205F
    ||| v == 0x3000
}

pub open spec fn is_digit(c: char) -> bool {
    48 <= (c as u32) <= 57
}

pub open spec fn is_hex(c: char) -> bool {
    is_digit(c) || 97 <= (c as u32) <= 102
}

/// Letters, `-`, `_` and `:`.
pub open spec fn is_event_char(c: char) -> bool {
    ||| 65 <= (c as u32) <= 90
    ||| 97 <= (c as u32) <= 122
    ||| c == '-'
    ||| c == '_'
    ||| c == ':'
}

/// Character classes of the grammar.
#[derive(Clone, Copy, Debug, PartialEq, Eq, Structural)]
pub enum CharClass {
    Space,
    Digit,
    Hex,
}

pub open spec fn in_class(k: CharClass, c: char) -> bool {
    match k {
        CharClass::Space => is_space(c),
        CharClass::Digit => is_digit(c),
        CharClass::Hex => is_hex(c),
    }
}

/// The end of the run of class `k` that starts at `i`.
pub open spec fn skip(s: Seq<char>, k: CharClass, i: int) -> int
    decreases s.len() - i,
{
    if 0 <= i < s.len() && in_class(k, s[i]) {
        skip(s, k, i + 1)
    } else {
        i
    }
}

/// The start of the run of blanks that ends at `i`.
pub open spec fn skip_back_spaces(s: Seq<char>, i: int) -> int
    decreases i,
{
    if 0 < i <= s.len() && is_space(s[i - 1]) {
        skip_back_spaces(s, i - 1)
    } else {
        i
    }
}

/// `s` without its leading and trailing blanks.
pub open spec fn trimmed(s: Seq<char>) -> Seq<char> {
    let a = skip(s, CharClass::Space, 0);
    let b = skip_back_spaces(s, s.len() as int);
    if a >= b {
        Seq::empty()
    } else {
        s.subrange(a, b)
    }
}

/// The last index below `i` holding `:`, or -1.
pub open spec fn last_colon(s: Seq<char>, i: int) -> int
    decreases i,
{
    if i <= 0 || i > s.len() {
        -1
    } else if s[i - 1] == ':' {
        i - 1
    } else {
        last_colon(s, i - 1)
    }
}

/// The decimal value of a run of digits.
pub open spec fn digits_value(s: Seq<char>) -> nat
    decreases s.len(),
{
    if s.len() == 0 {
        0
    } else {
        digits_value(s.drop_last()) * 10 + ((s.last() as u32) - 48) as nat
    }
}

/// Header line: blanks, a count, one blank, the event name, then `:`.
pub open spec fn header_event(s: Seq<char>) -> Option<Seq<char>> {
    let a = skip(s, CharClass::Space, 0);
    let b = skip(s, CharClass::Digit, a);
    if a > 0 && b > a && b + 2 < s.len() && is_space(s[b]) && s[s.len() - 1] == ':'
        && forall|k: int| b + 1 <= k < s.len() - 1 ==> is_event_char(#[trigger] s[k]) {
        Some(s.subrange(b + 1, s.len() - 1))
    } else {
        None
    }
}

/// Symbol line: blanks, a hexadecimal address, one blank, the symbol.
pub open spec fn symbol_text(s: Seq<char>) -> Option<Seq<char>> {
    let a = skip(s, CharClass::Space, 0);
    let h = skip(s, CharClass::Hex, a);
    if a > 0 && h > a && h < s.len() && is_space(s[h]) {
        Some(s.subrange(h + 1, s.len() as int))
    } else {
        None
    }
}

/// Source line: blanks, an absolute path, `:`, a line number. The line is
/// absent when it does not fit in 32 bits.
pub open spec fn source_of(s: Seq<char>) -> Option<(Seq<char>, Option<u32>)> {
    let a = skip(s, CharClass::Space, 0);
    let p = last_colon(s, s.len() as int);
    if a > 0 && a < s.len() && s[a] == '/' && p > a && p + 1 < s.len() && skip(s, CharClass::Digit, p + 1) == s.len() {
        let v = digits_value(s.subrange(p + 1, s.len() as int));
        Some((s.subrange(a, p), if v <= u32::MAX { Some(v as u32) } else { None }))
    } else {
        None
    }
}

/// Relies on `FromIterator<&char>` for `String`: the characters of the
/// range, in order.
#[verifier::external_body]
fn text_of(s: &Vec<char>, from: usize, to: usize) -> (r: String)
    requires
        from <= to <= s@.len(),
    ensures
        r@ == s@.subrange(from as int, to as int),
{
    s[from..to].iter().collect()
}

fn class_has(k: CharClass, c: char) -> (r: bool)
    ensures
        r == in_class(k, c),
{
    let v = c as u32;
    match k {
        CharClass::Space => (9 <= v && v <= 13) || v == 32 || v == 0x85 || v == 0xA0 || v == 0x1680 || (0x2000 <= v
            && v <= 0x200A) || v == 0x2028 || v == 0x2029 || v == 0x202F || v == 0x205F || v == 0x3000,
        CharClass::Digit => 48 <= v && v <= 57,
        CharClass::Hex => (48 <= v && v <= 57) || (97 <= v && v <= 102),
    }
}

fn skip_exec(s: &Vec<char>, k: CharClass, i: usize) -> (r: usize)
    requires
        i <= s@.len(),
    ensures
        r == skip(s@, k, i as int),
        i <= r <= s@.len(),
{
    let mut j = i;
    while j < s.len() && class_has(k, s[j])
        invariant
            i <= j <= s@.len(),
            skip(s@, k, j as int) == skip(s@, k, i as int),
        decreases s@.len() - j,
    {
        j = j + 1;
    }
    j
}

proof fn lemma_last_colon_range(s: Seq<char>, i: int)
    requires
        0 <= i,
    ensures
        -1 <= last_colon(s, i) < i,
        last_colon(s, i) >= 0 ==> s[last_colon(s, i)] == ':',
    decreases i,
{
    if 0 < i <= s.len() && s[i - 1] != ':' {
        lemma_last_colon_range(s, i - 1);
    }
}

fn last_colon_exec(s: &Vec<char>) -> (r: Option<usize>)
    ensures
        r is None <==> last_colon(s@, s@.len() as int) == -1,
        r matches Some(p) ==> p == last_colon(s@, s@.len() as int) && p < s@.len(),
{
    proof {
        lemma_last_colon_range(s@, s@.len() as int);
    }
    let mut i = s.len();
    while i > 0 && s[i - 1] != ':'
        invariant
            i <= s@.len(),
            last_colon(s@, i as int) == last_colon(s@, s@.len() as int),
        decreases i,
    {
        i = i - 1;
    }
    if i == 0 {
        None
    } else {
        Some(i - 1)
    }
}

fn header_event_exec(s: &Vec<char>) -> (r: Option<String>)
    ensures
        r is None <==> header_event(s@) is None,
        r matches Some(t) ==> header_event(s@) == Some(t@),
{
    let a = skip_exec(s, CharClass::Space, 0);
    let b = skip_exec(s, CharClass::Digit, a);
    if !(a > 0 && b > a && b < s.len() && s.len() - b > 2 && class_has(CharClass::Space, s[b]) && s[s.len() - 1] == ':') {
        return None;
    }
    let mut k = b + 1;
    while k < s.len() - 1
        invariant
            b + 2 < s@.len(),
            b + 1 <= k <= s@.len() - 1,
            a == skip(s@, CharClass::Space, 0),
            b == skip(s@, CharClass::Digit, a as int),
            a > 0,
            b > a,
            is_space(s@[b as int]),
            s@[s@.len() - 1] == ':',
            forall|q: int| b + 1 <= q < k ==> is_event_char(#[trigger] s@[q]),
        decreases s@.len() - k,
    {
        let v = s[k] as u32;
        if !((65 <= v && v <= 90) || (97 <= v && v <= 122) || s[k] == '-' || s[k] == '_' || s[k] == ':') {
            proof {
                let sv = s@;
                assert(!is_event_char(sv[k as int]));
                assert(!(forall|q: int| b + 1 <= q < sv.len() - 1 ==> is_event_char(#[trigger] sv[q])));
                assert(header_event(sv) is None);
            }
            return None;
        }
        k = k + 1;
    }
    Some(text_of(s, b + 1, s.len() - 1))
}

fn symbol_exec(s: &Vec<char>) -> (r: Option<String>)
    ensures
        r is None <==> symbol_text(s@) is None,
        r matches Some(t) ==> symbol_text(s@) == Some(t@),
{
    let a = skip_exec(s, CharClass::Space, 0);
    let h = skip_exec(s, CharClass::Hex, a);
    if a > 0 && h > a && h < s.len() && class_has(CharClass::Space, s[h]) {
        Some(text_of(s, h + 1, s.len()))
    } else {
        None
    }
}

proof fn lemma_digits_value_push(s: Seq<char>, c: char)
    ensures
        digits_value(s.push(c)) == digits_value(s) * 10 + ((c as u32) - 48) as nat,
{
    assert(s.push(c).drop_last() =~= s);
}

/// The value of the digits `s[from..to]`, when it fits in 32 bits.
fn digits_exec(s: &Vec<char>, from: usize, to: usize) -> (r: Option<u32>)
    requires
        from <= to <= s@.len(),
        forall|q: int| from <= q < to ==> is_digit(#[trigger] s@[q]),
    ensures
        digits_value(s@.subrange(from as int, to as int)) <= u32::MAX ==> r == Some(
            digits_value(s@.subrange(from as int, to as int)) as u32,
        ),
        digits_value(s@.subrange(from as int, to as int)) > u32::MAX ==> r is None,
{
    let mut acc: u32 = 0;
    let mut i = from;
    while i < to
        invariant
            from <= i <= to <= s@.len(),
            forall|q: int| from <= q < to ==> is_digit(#[trigger] s@[q]),
            acc == digits_value(s@.subrange(from as int, i as int)),
        decreases to - i,
    {
        let d = (s[i] as u32) - 48;
        proof {
            assert(is_digit(s@[i as int]));
            assert(s@.subrange(from as int, i + 1) =~= s@.subrange(from as int, i as int).push(s@[i as int]));
            lemma_digits_value_push(s@.subrange(from as int, i as int), s@[i as int]);
        }
        if acc > (u32::MAX - d) / 10 {
            proof {
                lemma_digits_grow(s@, from as int, i + 1, to as int);
                assert(acc * 10 + d > u32::MAX) by (nonlinear_arith)
                    requires acc > (u32::MAX - d) / 10, d <= 9;
            }
            return None;
        }
        assert(acc * 10 + d <= u32::MAX) by (nonlinear_arith)
            requires acc <= (u32::MAX - d) / 10, d <= 9;
        acc = acc * 10 + d;
        i = i + 1;
    }
    Some(acc)
}

/// Appending digits never makes the value smaller.
proof fn lemma_digits_grow(s: Seq<char>, from: int, i: int, to: int)
    requires
        0 <= from <= i <= to <= s.len(),
    ensures
        digits_value(s.subrange(from, i)) <= digits_value(s.subrange(from, to)),
    decreases to - i,
{
    if i < to {
        lemma_digits_grow(s, from, i + 1, to);
        assert(s.subrange(from, i + 1) =~= s.subrange(from, i).push(s[i]));
        lemma_digits_value_push(s.subrange(from, i), s[i]);
    }
}

fn source_exec(s: &Vec<char>) -> (r: Option<(String, Option<u32>)>)
    ensures
        r is None <==> source_of(s@) is None,
        r matches Some(t) ==> source_of(s@) matches Some(u) && t.0@ == u.0 && t.1 == u.1,
{
    let a = skip_exec(s, CharClass::Space, 0);
    let p = match last_colon_exec(s) {
        None => {
            return None;
        },
        Some(p) => p,
    };
    if !(a > 0 && a < s.len() && s[a] == '/' && p > a && p + 1 < s.len()) {
        return None;
    }
    let e = skip_exec(s, CharClass::Digit, p + 1);
    if e != s.len() {
        return None;
    }
    proof {
        assert forall|q: int| p + 1 <= q < s@.len() implies is_digit(#[trigger] s@[q]) by {
            lemma_skip_run(s@, CharClass::Digit, p + 1, q);
        }
    }
    let line = digits_exec(s, p + 1, s.len());
    Some((text_of(s, a, p), line))
}

/// Everything between `i` and the end of its run is in the class.
proof fn lemma_skip_run(s: Seq<char>, k: CharClass, i: int, q: int)
    requires
        0 <= i <= q < skip(s, k, i),
    ensures
        in_class(k, s[q]),
    decreases q - i,
{
    if i < q {
        lemma_skip_run(s, k, i + 1, q);
    }
}

pub open spec fn lines_view(lines: Seq<String>) -> Seq<Seq<char>> {
    lines.map_values(|l: String| l@)
}

/// The first empty line at `e`, `e + 2`, ...: where a record ends, after its
/// header and its pairs of frame lines.
pub open spec fn record_end(lines: Seq<Seq<char>>, e: int) -> Option<int>
    decreases lines.len() + 2 - e,
{
    if e < 0 || e >= lines.len() {
        None
    } else if lines[e].len() == 0 {
        Some(e)
    } else {
        record_end(lines, e + 2)
    }
}

/// Number of frames of a record that ends (0 for an empty stack).
pub open spec fn frame_count(lines: Seq<Seq<char>>) -> int {
    (record_end(lines, 1)->Some_0 - 1) / 2
}

/// A record is read when it ends, right after its header or after a pair of
/// frame lines, and every frame's symbol line is well formed. A record that
/// ends right after its header is a sample whose stack is empty.
pub open spec fn record_ok(lines: Seq<Seq<char>>) -> bool {
    &&& record_end(lines, 1) is Some
    &&& forall|k: int| 0 <= k < frame_count(lines) ==> #[trigger] symbol_text(lines[1 + 2 * k]) is Some
}

/// `d` is the frame read from a symbol line and a source line.
pub open spec fn parsed_frame(d: StackNodeData, sym: Seq<char>, src: Seq<char>) -> bool {
    &&& symbol_text(sym) == Some(d.symbol@)
    &&& match source_of(src) {
        None => d.file is None && d.line_number is None,
        Some(fl) => opt_view(d.file) == Some(fl.0) && d.line_number == fl.1,
    }
    &&& d.bin_file is None
    &&& d.id == frame_id_of(d.symbol@, opt_view(d.file), d.line_number, opt_view(d.bin_file))
}

/// The trace read from a record: its frames root first (the record lists
/// them innermost first), and the header's event name, empty when the header
/// is not recognised.
pub open spec fn parses_to(t: StackTrace, lines: Seq<Seq<char>>) -> bool {
    let n = frame_count(lines);
    &&& t.stack_node_datas@.len() == n
    &&& forall|i: int| 0 <= i < n ==> parsed_frame(#[trigger] t.stack_node_datas@[i], lines[1 + 2 * (n - 1 - i)], lines[2 + 2 * (n - 1 - i)])
    &&& t.event@ == match header_event(lines[0]) {
        Some(e) => e,
        None => Seq::<char>::empty(),
    }
}

proof fn lemma_record_end_range(lines: Seq<Seq<char>>, e: int)
    requires
        0 <= e,
    ensures
        record_end(lines, e) matches Some(x) ==> e <= x < lines.len() && (x - e) % 2 == 0 && lines[x].len() == 0,
    decreases lines.len() + 2 - e,
{
    if e < lines.len() && lines[e].len() != 0 {
        lemma_record_end_range(lines, e + 2);
    }
}

/// Reads one record. Frame identities come through the symbol cache.
pub fn parse_record(cache: &mut SymbolCache, lines: &Vec<String>) -> (r: Option<StackTrace>)
    requires
        old(cache).wf(),
    ensures
        final(cache).wf(),
        r is Some <==> record_ok(lines_view(lines@)),
        r matches Some(t) ==> parses_to(t, lines_view(lines@)),
{
    let ghost lv = lines_view(lines@);
    let n = lines.len();
    let mut e: usize = 1;
    while e < n && !lines[e].as_str().is_empty()
        invariant
            n == lines@.len(),
            lv == lines_view(lines@),
            1 <= e,
            (e - 1) % 2 == 0,
            record_end(lv, e as int) == record_end(lv, 1),
        decreases n + 2 - e,
    {
        e = e + 2;
    }
    if e >= n {
        return None;
    }
    proof {
        lemma_record_end_range(lv, 1);
    }
    let count = (e - 1) / 2;
    assert(count == frame_count(lv));
    let mut frames: Vec<StackNodeData> = Vec::new();
    let mut i: usize = 0;
    while i < count
        invariant
            cache.wf(),
            n == lines@.len(),
            lv == lines_view(lines@),
            count == frame_count(lv),
            e == record_end(lv, 1)->Some_0,
            record_end(lv, 1) is Some,
            e < n,
            count == (e - 1) / 2,
            i <= count,
            frames@.len() == i,
            forall|q: int| 0 <= q < i ==> parsed_frame(#[trigger] frames@[q], lv[1 + 2 * (count - 1 - q)], lv[2 + 2 * (count - 1 - q)]),
            forall|q: int| 0 <= q < i ==> #[trigger] symbol_text(lv[1 + 2 * (count - 1 - q)]) is Some,
        decreases count - i,
    {
        let k = count - 1 - i;
        let sym_line = chars_of(lines[1 + 2 * k].as_str());
        let symbol = match symbol_exec(&sym_line) {
            None => {
                assert(!record_ok(lv)) by {
                    assert(symbol_text(lv[1 + 2 * (k as int)]) is None);
                }
                return None;
            },
            Some(t) => t,
        };
        let src_line = chars_of(lines[2 + 2 * k].as_str());
        let (file, line_number): (Option<String>, Option<u32>) = match source_exec(&src_line) {
            None => (None, None),
            Some(fl) => (Some(fl.0), fl.1),
        };
        let bin_file: Option<String> = None;
        let id = cache.frame_id(symbol.as_str(), &file, line_number, &bin_file);
        frames.push(StackNodeData { id, symbol, file, line_number, bin_file });
        i = i + 1;
    }
    assert(record_ok(lv)) by {
        assert forall|k: int| 0 <= k < frame_count(lv) implies #[trigger] symbol_text(lv[1 + 2 * k]) is Some by {
            let q = count - 1 - k;
            assert(symbol_text(lv[1 + 2 * (count - 1 - q)]) is Some);
        }
    }
    let header = chars_of(lines[0].as_str());
    let event = match header_event_exec(&header) {
        Some(ev) => ev,
        None => String::new(),
    };
    Some(StackTrace { event, stack_node_datas: frames })
}

/// The executable record a trace is counted under: the header's event name,
/// when the header gives one, replaces the event of `exec`.
pub open spec fn counted_under(exec: ProfiledBinary, t: StackTrace) -> ProfiledBinary {
    if t.event@.len() > 0 {
        ProfiledBinary { event: t.event, ..exec }
    } else {
        exec
    }
}

/// Reads one record and folds it into the store: its frames become one path
/// with count 1 seeded by the executable's id, and the executable record
/// counts one more sample of 8 bytes per frame. A record with no frames
/// still counts as a sample and adds no node. A record that cannot be read
/// changes nothing. When a node is refused, the nodes before it stay merged
/// and the executable record is left as it was. Returns the trace read.
pub fn process_record(
    store: &mut AggregationStore,
    cache: &mut SymbolCache,
    lines: &Vec<String>,
    exec: &ProfiledBinary,
) -> (r: (Option<StackTrace>, Result<(), StoreError>))
    requires
        old(store).wf(),
        old(cache).wf(),
        lines@.len() <= u32::MAX,
    ensures
        final(store).wf(),
        final(cache).wf(),
        r.0 is Some <==> record_ok(lines_view(lines@)),
        r.0 is None ==> r.1 is Ok && final(store).node_map() == old(store).node_map()
            && final(store).data_map() == old(store).data_map() && final(store).binary_map() == old(store).binary_map(),
        r.0 matches Some(t) ==> {
            &&& parses_to(t, lines_view(lines@))
            &&& final(store).data_map() == frames_merged(old(store).data_map(), t.stack_node_datas@)
            &&& match nodes_merged(old(store).node_map(), trace_nodes(frame_ids_of(t.stack_node_datas@), exec.id, 1)) {
                Err(e) => r.1 == Err::<(), StoreError>(e) && final(store).binary_map() == old(store).binary_map()
                    && exists|k: int| #[trigger] nodes_refused_at(
                        old(store).node_map(),
                        trace_nodes(frame_ids_of(t.stack_node_datas@), exec.id, 1),
                        k,
                        final(store).node_map(),
                    ),
                Ok(nm) => final(store).node_map() == nm && match binary_merged(
                    old(store).binary_map(),
                    counted_under(*exec, t),
                    1,
                    (8 * t.stack_node_datas@.len()) as u64,
                    0,
                ) {
                    Err(e) => r.1 == Err::<(), StoreError>(e) && final(store).binary_map() == old(store).binary_map(),
                    Ok(bm) => r.1 is Ok && final(store).binary_map() == bm,
                },
            }
        },
{
    let trace = match parse_record(cache, lines) {
        None => {
            return (None, Ok(()));
        },
        Some(t) => t,
    };
    proof {
        lemma_record_end_range(lines_view(lines@), 1);
    }
    let folded = store.fold_trace(&trace.stack_node_datas, exec.id, 1);
    if let Err(e) = folded {
        return (Some(trace), Err(e));
    }
    let raw: u64 = 8 * (trace.stack_node_datas.len() as u64);
    let counted = if trace.event.as_str().is_empty() {
        exec.duplicate()
    } else {
        ProfiledBinary { event: trace.event.clone(), ..exec.duplicate() }
    };
    let merged = store.merge_insert_executable(counted, 1, raw, 0);
    (Some(trace), merged)
}

/// Gathers `perf script` output line by line into records: an empty line
/// ends a record, which is handed out whole, that line included.
pub struct RecordSplitter {
    pending: Vec<String>,
}

impl RecordSplitter {
    /// The lines of the record begun and not yet ended.
    pub closed spec fn pending(&self) -> Seq<String> {
        self.pending@
    }

    pub fn new() -> (r: RecordSplitter)
        ensures
            r.pending() == Seq::<String>::empty(),
    {
        RecordSplitter { pending: Vec::new() }
    }

    /// Takes the next line; hands out the record that an empty line ends.
    pub fn push_line(&mut self, line: String) -> (r: Option<Vec<String>>)
        ensures
            line@.len() == 0 ==> r is Some && r->Some_0@ == old(self).pending().push(line) && final(self).pending()
                == Seq::<String>::empty(),
            line@.len() > 0 ==> r is None && final(self).pending() == old(self).pending().push(line),
    {
        let end = line.as_str().is_empty();
        self.pending.push(line);
        if end {
            Some(self.pending.split_off(0))
        } else {
            None
        }
    }

    /// Number of lines after the last empty line: an unfinished record.
    pub fn unfinished(&self) -> (r: usize)
        ensures
            r == self.pending().len(),
    {
        self.pending.len()
    }
}

} // verus!
