//! Reading one line of a memory trace into a decoded access.
use crate::address::{decode_address, set_index_of, tag_of};
use crate::cache::{accesses_view, audit_view, is_operation, run, run_log, valid_ops, AuditRecord, Cache};
use vstd::arithmetic::power2::pow2;
use crate::text::{chars_of, parse_unsigned, unsigned_of};
use vstd::prelude::*;

verus! {

/// Unicode white space, as `char::is_whitespace` defines it.
pub open spec fn is_space(c: char) -> bool {
    ('\u{9}' <= c && c <= '\u{d}') || c == ' ' || c == '\u{85}' || c == '\u{a0}' || c == '\u{1680}'
        || ('\u{2000}' <= c && c <= '\u{200a}') || c == '\u{2028}' || c == '\u{2029}' || c
        == '\u{202f}' || c == '\u{205f}' || c == '\u{3000}'
}

/// The first index at or after `i` that is not white space, or `s.len()`.
pub open spec fn skip_space(s: Seq<char>, i: int) -> int
    decreases s.len() - i,
{
    if i < 0 || i >= s.len() {
        s.len() as int
    } else if is_space(s[i]) {
        skip_space(s, i + 1)
    } else {
        i
    }
}

/// The first index at or after `i` that is white space, or `s.len()`.
pub open spec fn word_end(s: Seq<char>, i: int) -> int
    decreases s.len() - i,
{
    if i < 0 || i >= s.len() {
        s.len() as int
    } else if is_space(s[i]) {
        i
    } else {
        word_end(s, i + 1)
    }
}

/// The first index at or after `i` and before `end` that holds `c`, or `end`.
pub open spec fn find_from(s: Seq<char>, c: char, i: int, end: int) -> int
    decreases end - i,
{
    if i < 0 || i >= end || i >= s.len() {
        end
    } else if s[i] == c {
        i
    } else {
        find_from(s, c, i + 1, end)
    }
}

/// Where the first field of `line` starts.
pub open spec fn op_start(line: Seq<char>) -> int {
    skip_space(line, 0)
}

/// Where the first field of `line` ends.
pub open spec fn op_end(line: Seq<char>) -> int {
    word_end(line, op_start(line))
}

/// Where the second field of `line` starts; `line.len()` if there is none.
pub open spec fn arg_start(line: Seq<char>) -> int {
    skip_space(line, op_end(line))
}

/// Where the second field of `line` ends.
pub open spec fn arg_end(line: Seq<char>) -> int {
    word_end(line, arg_start(line))
}

/// Where the address of the second field ends: at its first comma, or at
/// its end when it has none.
pub open spec fn address_end(line: Seq<char>) -> int {
    find_from(line, ',', arg_start(line), arg_end(line))
}

/// The error message for a line without an operation and an address.
pub open spec fn format_message() -> Seq<char> {
    "invalid memory access format"@
}

/// The error message for an operation that is not a data access.
pub open spec fn operation_message() -> Seq<char> {
    "invalid operation encountered"@
}

/// The error message for an address that is no hexadecimal numeral.
pub open spec fn address_message() -> Seq<char> {
    "failed to parse address"@
}

/// A trace line read for `2^s` sets of `2^b`-byte blocks: an empty line and
/// an instruction fetch (`I`) give `None`; `L`, `S` and `M` give the
/// operation with the set index and tag of the hexadecimal address that
/// follows; anything else is an error. The line holds at least two fields
/// separated by white space, and the second is the address, a comma and
/// the size, which is not read.
pub open spec fn decoded_line(line: Seq<char>, s: u64, b: u64) -> Result<
    Option<(char, u64, u64)>,
    Seq<char>,
> {
    let op = line.subrange(op_start(line), op_end(line));
    let address = unsigned_of(line.subrange(arg_start(line), address_end(line)), 16, u64::MAX as nat);
    if line.len() == 0 {
        Ok(None)
    } else if arg_start(line) >= line.len() {
        Err(format_message())
    } else if op == seq!['I'] {
        Ok(None)
    } else if !(op == seq!['L'] || op == seq!['S'] || op == seq!['M']) {
        Err(operation_message())
    } else if address_end(line) >= arg_end(line) {
        Err(format_message())
    } else if address is None {
        Err(address_message())
    } else {
        let a = address->Some_0 as u64;
        Ok(Some((op[0], set_index_of(a, s, b), tag_of(a, s, b))))
    }
}

/// `skip_space` stops at the first character that is not white space.
proof fn lemma_skip_space(s: Seq<char>, i: int)
    requires
        0 <= i <= s.len(),
    ensures
        i <= skip_space(s, i) <= s.len(),
        skip_space(s, i) < s.len() ==> !is_space(s[skip_space(s, i)]),
    decreases s.len() - i,
{
    if i < s.len() && is_space(s[i]) {
        lemma_skip_space(s, i + 1);
    }
}

/// `word_end` stops at the first white space character.
proof fn lemma_word_end(s: Seq<char>, i: int)
    requires
        0 <= i <= s.len(),
    ensures
        i <= word_end(s, i) <= s.len(),
        i < s.len() && !is_space(s[i]) ==> i < word_end(s, i),
    decreases s.len() - i,
{
    if i < s.len() && !is_space(s[i]) {
        lemma_word_end(s, i + 1);
    }
}

/// `find_from` stays within its range.
proof fn lemma_find_from(s: Seq<char>, c: char, i: int, end: int)
    requires
        0 <= i <= end <= s.len(),
    ensures
        i <= find_from(s, c, i, end) <= end,
    decreases end - i,
{
    if i < end && s[i] != c {
        lemma_find_from(s, c, i + 1, end);
    }
}

fn space(c: char) -> (r: bool)
    ensures
        r == is_space(c),
{
    ('\u{9}' <= c && c <= '\u{d}') || c == ' ' || c == '\u{85}' || c == '\u{a0}' || c == '\u{1680}'
        || ('\u{2000}' <= c && c <= '\u{200a}') || c == '\u{2028}' || c == '\u{2029}' || c
        == '\u{202f}' || c == '\u{205f}' || c == '\u{3000}'
}

fn skip_space_exec(s: &Vec<char>, from: usize) -> (r: usize)
    requires
        from <= s@.len(),
    ensures
        r == skip_space(s@, from as int),
{
    let mut i = from;
    while i < s.len() && space(s[i])
        invariant
            from <= i <= s@.len(),
            skip_space(s@, i as int) == skip_space(s@, from as int),
        decreases s@.len() - i,
    {
        i = i + 1;
    }
    i
}

fn word_end_exec(s: &Vec<char>, from: usize) -> (r: usize)
    requires
        from <= s@.len(),
    ensures
        r == word_end(s@, from as int),
{
    let mut i = from;
    while i < s.len() && !space(s[i])
        invariant
            from <= i <= s@.len(),
            word_end(s@, i as int) == word_end(s@, from as int),
        decreases s@.len() - i,
    {
        i = i + 1;
    }
    i
}

fn find_exec(s: &Vec<char>, c: char, from: usize, end: usize) -> (r: usize)
    requires
        from <= end <= s@.len(),
    ensures
        r == find_from(s@, c, from as int, end as int),
{
    let mut i = from;
    while i < end && s[i] != c
        invariant
            from <= i <= end <= s@.len(),
            find_from(s@, c, i as int, end as int) == find_from(s@, c, from as int, end as int),
        decreases end - i,
    {
        i = i + 1;
    }
    i
}

/// Reads one trace line for `2^s` sets of `2^b`-byte blocks: `None` for an
/// empty line or an instruction fetch, else the operation, the set index
/// and the tag.
pub fn parse_memory_access(memory_access: &str, s: usize, b: usize) -> (r: Result<
    Option<(char, usize, u64)>,
    String,
>)
    requires
        s + b <= 64,
        s < usize::BITS,
    ensures
        match decoded_line(memory_access@, s as u64, b as u64) {
            Ok(None) => r == Ok::<Option<(char, usize, u64)>, String>(None),
            Ok(Some((op, set_index, tag))) => r matches Ok(Some((o, si, t))) && o == op && si as u64
                == set_index && t == tag,
            Err(m) => r matches Err(e) && e@ == m,
        },
        r matches Ok(Some((op, set_index, _))) ==> is_operation(op) && (set_index as nat) < pow2(
            s as nat,
        ),
{
    let line = chars_of(memory_access);
    let ghost l = line@;
    if line.len() == 0 {
        return Ok(None);
    }
    let op_start = skip_space_exec(&line, 0);
    proof {
        lemma_skip_space(l, 0);
    }
    let op_end = word_end_exec(&line, op_start);
    proof {
        lemma_word_end(l, op_start as int);
    }
    let arg_start = skip_space_exec(&line, op_end);
    proof {
        lemma_skip_space(l, op_end as int);
    }
    if arg_start >= line.len() {
        return Err("invalid memory access format".to_string());
    }
    let arg_end = word_end_exec(&line, arg_start);
    proof {
        lemma_word_end(l, arg_start as int);
        lemma_skip_space(l, 0);
        lemma_word_end(l, op_start as int);
    }
    let ghost op = l.subrange(op_start as int, op_end as int);
    if op_end - op_start != 1 {
        assert(op.len() != 1);
        assert(op != seq!['I'] && op != seq!['L'] && op != seq!['S'] && op != seq!['M']);
        return Err("invalid operation encountered".to_string());
    }
    let c = line[op_start];
    assert(op =~= seq![c]);
    assert(seq!['I'][0] == 'I' && seq!['L'][0] == 'L' && seq!['S'][0] == 'S' && seq!['M'][0] == 'M');
    if c == 'I' {
        return Ok(None);
    }
    if !(c == 'L' || c == 'S' || c == 'M') {
        assert(op != seq!['L'] && op != seq!['S'] && op != seq!['M']);
        return Err("invalid operation encountered".to_string());
    }
    let address_end = find_exec(&line, ',', arg_start, arg_end);
    proof {
        lemma_find_from(l, ',', arg_start as int, arg_end as int);
    }
    if address_end >= arg_end {
        return Err("invalid memory access format".to_string());
    }
    match parse_unsigned(&line, arg_start, address_end, 16, u64::MAX) {
        None => Err("failed to parse address".to_string()),
        Some(address) => {
            let (set_index, tag) = decode_address(address, s, b);
            Ok(Some((c, set_index, tag)))
        },
    }
}

/// What a run does with a malformed trace line.
#[derive(Clone, Copy, Debug, PartialEq, Eq, Structural)]
pub enum Malformed {
    /// Stop at the first malformed line and report it.
    Abort,
    /// Leave the line out and go on.
    Skip,
}

/// The decoded accesses of a whole trace; under `Abort`, the error of its
/// first malformed line instead.
pub open spec fn decoded_trace(lines: Seq<Seq<char>>, s: u64, b: u64, policy: Malformed) -> Result<
    Seq<(char, u64, u64)>,
    Seq<char>,
>
    decreases lines.len(),
{
    if lines.len() == 0 {
        Ok(Seq::empty())
    } else {
        match decoded_trace(lines.drop_last(), s, b, policy) {
            Err(m) => Err(m),
            Ok(ops) => match decoded_line(lines.last(), s, b) {
                Err(m) => if policy == Malformed::Skip {
                    Ok(ops)
                } else {
                    Err(m)
                },
                Ok(None) => Ok(ops),
                Ok(Some(a)) => Ok(ops.push(a)),
            },
        }
    }
}

/// The mathematical value of a list of trace lines.
pub open spec fn lines_view(lines: Seq<String>) -> Seq<Seq<char>> {
    lines.map_values(|l: String| l@)
}

/// Decodes every line of a trace; a malformed line stops the decoding or
/// is left out, as `policy` says.
pub fn decode_trace(lines: &Vec<String>, s: usize, b: usize, policy: Malformed) -> (r: Result<
    Vec<(char, usize, u64)>,
    String,
>)
    requires
        s + b <= 64,
        s < usize::BITS,
    ensures
        match decoded_trace(lines_view(lines@), s as u64, b as u64, policy) {
            Ok(ops) => r matches Ok(v) && accesses_view(v@) == ops,
            Err(m) => r matches Err(e) && e@ == m,
        },
        r matches Ok(v) ==> v@.len() <= lines@.len() && valid_ops(
            accesses_view(v@),
            pow2(s as nat),
        ),
{
    let ghost ls = lines_view(lines@);
    let mut out: Vec<(char, usize, u64)> = Vec::new();
    let mut i: usize = 0;
    assert(accesses_view(out@) =~= Seq::empty());
    assert(ls.take(0) =~= Seq::empty());
    while i < lines.len()
        invariant
            i <= lines@.len(),
            s + b <= 64,
            s < usize::BITS,
            ls == lines_view(lines@),
            decoded_trace(ls.take(i as int), s as u64, b as u64, policy) == Ok::<
                Seq<(char, u64, u64)>,
                Seq<char>,
            >(accesses_view(out@)),
            out@.len() <= i,
            valid_ops(accesses_view(out@), pow2(s as nat)),
        decreases lines@.len() - i,
    {
        assert(ls.take(i + 1).drop_last() =~= ls.take(i as int));
        assert(ls.take(i + 1).last() == lines@[i as int]@);
        match parse_memory_access(lines[i].as_str(), s, b) {
            Err(m) => {
                if policy == Malformed::Abort {
                    proof {
                        lemma_decoded_trace_err(ls, i as int + 1, s as u64, b as u64);
                    }
                    return Err(m);
                }
            },
            Ok(None) => {},
            Ok(Some(a)) => {
                let ghost before = accesses_view(out@);
                out.push(a);
                assert(accesses_view(out@) =~= before.push((a.0, a.1 as u64, a.2)));
            },
        }
        i = i + 1;
    }
    assert(ls.take(lines@.len() as int) =~= ls);
    Ok(out)
}

/// Once a prefix of the trace is malformed, the whole trace fails with the
/// same message.
proof fn lemma_decoded_trace_err(lines: Seq<Seq<char>>, k: int, s: u64, b: u64)
    requires
        0 <= k <= lines.len(),
        decoded_trace(lines.take(k), s, b, Malformed::Abort) is Err,
    ensures
        decoded_trace(lines, s, b, Malformed::Abort) == decoded_trace(lines.take(k), s, b, Malformed::Abort),
    decreases lines.len() - k,
{
    if k < lines.len() {
        assert(lines.take(k + 1).drop_last() =~= lines.take(k));
        lemma_decoded_trace_err(lines, k + 1, s, b);
    } else {
        assert(lines.take(k) =~= lines);
    }
}

/// Runs a whole trace through `cache`, whose `2^s` sets hold blocks of
/// `2^b` bytes, and returns the audit trail of the run. Under `Abort`, a
/// malformed line stops the run before any access; under `Skip` it is left
/// out. Instruction fetches are skipped.
pub fn simulate_trace(
    cache: &mut Cache,
    lines: &Vec<String>,
    s: usize,
    b: usize,
    policy: Malformed,
) -> (r: Result<
    Vec<AuditRecord>,
    String,
>)
    requires
        old(cache)@.wf(),
        old(cache)@.sets.len() == pow2(s as nat),
        s + b <= 64,
        s < usize::BITS,
        old(cache).hits + 2 * lines@.len() < usize::MAX,
        old(cache).misses + 2 * lines@.len() < usize::MAX,
        old(cache).evictions + 2 * lines@.len() < usize::MAX,
    ensures
        match decoded_trace(lines_view(lines@), s as u64, b as u64, policy) {
            Ok(ops) => r matches Ok(log) && final(cache)@ == run(old(cache)@, ops) && audit_view(log@)
                == run_log(old(cache)@, ops),
            Err(m) => r matches Err(e) && e@ == m && final(cache)@ == old(cache)@,
        },
        final(cache)@.wf(),
{
    let accesses = decode_trace(lines, s, b, policy)?;
    Ok(cache.simulate_accesses(&accesses))
}

} // verus!
