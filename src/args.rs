//! Reading the geometry and the trace file name from the command line.
use crate::text::{chars_of, parse_unsigned, push_char, unsigned_of};
use vstd::prelude::*;

verus! {

/// What getopt hands out for one option: the option character and its
/// argument, or the message of an error.
pub type OptionItem = Result<(char, Option<String>), String>;

/// The mathematical value of an `OptionItem`.
pub open spec fn item_view(x: OptionItem) -> Result<(char, Option<Seq<char>>), Seq<char>> {
    match x {
        Ok((c, Some(v))) => Ok((c, Some(v@))),
        Ok((c, None)) => Ok((c, None)),
        Err(m) => Err(m@),
    }
}

/// The mathematical value of a list of `OptionItem`s.
pub open spec fn items_view(items: Seq<OptionItem>) -> Seq<Result<(char, Option<Seq<char>>), Seq<char>>> {
    items.map_values(|x: OptionItem| item_view(x))
}

/// The options that getopt reads from `args` (the program name first) for
/// `optstring`, in order, up to the first argument that is no option.
pub uninterp spec fn getopt_options(args: Seq<Seq<char>>, optstring: Seq<char>) -> Seq<
    Result<(char, Option<Seq<char>>), Seq<char>>,
>;

/// Relies on `getopt::Parser::new` and its `Iterator::next`: the parser
/// yields the options of `args` for `optstring` one by one; what it yields
/// depends on the two arguments alone. Each error is kept as its message.
#[verifier::external_body]
fn getopt_parse(args: &[String], optstring: &str) -> (r: Vec<OptionItem>)
    ensures
        items_view(r@) == getopt_options(args@.map_values(|a: String| a@), optstring@),
{
    getopt::Parser::new(args, optstring).map(
        |o| match o {
            Ok(getopt::Opt(c, v)) => Ok((c, v)),
            Err(e) => Err(e.to_string()),
        },
    ).collect()
}

/// The option characters this program takes, each with an argument.
pub open spec fn optstring() -> Seq<char> {
    "s:E:b:t:"@
}

/// What has been read so far: the three geometry numbers, the trace file
/// name, and the options already seen.
pub struct Settings {
    pub s: usize,
    pub e: usize,
    pub b: usize,
    pub t: Seq<char>,
    pub seen: Set<char>,
}

/// Nothing read yet.
pub open spec fn no_settings() -> Settings {
    Settings { s: 0, e: 0, b: 0, t: Seq::empty(), seen: Set::empty() }
}

/// The error message for an option given twice.
pub open spec fn duplicate_message(flag: char) -> Seq<char> {
    "duplicate flag -"@.push(flag)
}

/// The error message for a geometry option whose argument is no number.
pub open spec fn invalid_value_message(flag: char) -> Seq<char> {
    "invalid value for -"@.push(flag) + " flag"@
}

/// The error message for an option this program does not take.
pub open spec fn unknown_flag_message(flag: char) -> Seq<char> {
    "unknown flag: -"@.push(flag)
}

/// The error message for an option without an argument.
pub open spec fn unexpected_option_message() -> Seq<char> {
    "unexpected option"@
}

/// The error message for a required option that is missing or zero.
pub open spec fn missing_message() -> Seq<char> {
    "missing required arguments, incorrect command-line format"@
}

/// The settings once every option has been read: all four are required,
/// and the three numbers must not be zero.
pub open spec fn finish(st: Settings) -> Result<(usize, usize, usize, Seq<char>), Seq<char>> {
    if st.s == 0 || st.e == 0 || st.b == 0 || st.t.len() == 0 {
        Err(missing_message())
    } else {
        Ok((st.s, st.e, st.b, st.t))
    }
}

/// Reads the options from `items[i]` on, with `st` read before: `-t` takes
/// a file name, `-s`, `-E` and `-b` a decimal number; each may appear once.
/// The first error stops the reading.
pub open spec fn read_options(
    items: Seq<Result<(char, Option<Seq<char>>), Seq<char>>>,
    i: int,
    st: Settings,
) -> Result<(usize, usize, usize, Seq<char>), Seq<char>>
    decreases items.len() - i,
{
    if i < 0 || i >= items.len() {
        finish(st)
    } else {
        match items[i] {
            Err(m) => Err(m),
            Ok((_, None)) => Err(unexpected_option_message()),
            Ok((flag, Some(val))) => {
                if st.seen.contains(flag) {
                    Err(duplicate_message(flag))
                } else if flag == 't' {
                    read_options(items, i + 1, Settings { t: val, seen: st.seen.insert(flag), ..st })
                } else if flag == 's' || flag == 'E' || flag == 'b' {
                    match unsigned_of(val, 10, usize::MAX as nat) {
                        None => Err(invalid_value_message(flag)),
                        Some(v) => {
                            let seen = st.seen.insert(flag);
                            read_options(
                                items,
                                i + 1,
                                if flag == 's' {
                                    Settings { s: v as usize, seen, ..st }
                                } else if flag == 'E' {
                                    Settings { e: v as usize, seen, ..st }
                                } else {
                                    Settings { b: v as usize, seen, ..st }
                                },
                            )
                        },
                    }
                } else {
                    Err(unknown_flag_message(flag))
                }
            },
        }
    }
}

/// The mathematical value of what `parse_args` returns.
pub open spec fn settings_view(r: Result<(usize, usize, usize, String), String>) -> Result<
    (usize, usize, usize, Seq<char>),
    Seq<char>,
> {
    match r {
        Ok((s, e, b, t)) => Ok((s, e, b, t@)),
        Err(m) => Err(m@),
    }
}

fn flag_message(prefix: &str, flag: char) -> (r: String)
    ensures
        r@ == prefix@.push(flag),
{
    let mut m = prefix.to_string();
    push_char(&mut m, flag);
    m
}

/// Reads the geometry (`-s`, `-E`, `-b`) and the trace file name (`-t`)
/// from the options that getopt found.
pub fn parse_options(items: &Vec<OptionItem>) -> (r: Result<(usize, usize, usize, String), String>)
    ensures
        settings_view(r) == read_options(items_view(items@), 0, no_settings()),
{
    let ghost view = items_view(items@);
    let mut s: usize = 0;
    let mut e: usize = 0;
    let mut b: usize = 0;
    let mut t = String::new();
    let mut seen_s = false;
    let mut seen_e = false;
    let mut seen_b = false;
    let mut seen_t = false;
    let ghost mut st = no_settings();
    let mut i: usize = 0;
    while i < items.len()
        invariant
            i <= items@.len(),
            view == items_view(items@),
            st.s == s && st.e == e && st.b == b && st.t == t@,
            forall|c: char|
                #[trigger] st.seen.contains(c) <==> (c == 's' && seen_s) || (c == 'E' && seen_e) || (
                c == 'b' && seen_b) || (c == 't' && seen_t),
            read_options(view, i as int, st) == read_options(view, 0, no_settings()),
        decreases items@.len() - i,
    {
        assert(view[i as int] == item_view(items@[i as int]));
        match &items[i] {
            Err(m) => {
                return Err(m.clone());
            },
            Ok((_, None)) => {
                return Err("unexpected option".to_string());
            },
            Ok((flag, Some(val))) => {
                let flag = *flag;
                if (flag == 's' && seen_s) || (flag == 'E' && seen_e) || (flag == 'b' && seen_b) || (
                flag == 't' && seen_t) {
                    return Err(flag_message("duplicate flag -", flag));
                }
                assert(!st.seen.contains(flag));
                if flag == 't' {
                    t = val.clone();
                    seen_t = true;
                    proof {
                        st = Settings { t: t@, seen: st.seen.insert(flag), ..st };
                    }
                } else if flag == 's' || flag == 'E' || flag == 'b' {
                    let digits = chars_of(val.as_str());
                    match parse_unsigned(&digits, 0, digits.len(), 10, usize::MAX as u64) {
                        None => {
                            let mut m = flag_message("invalid value for -", flag);
                            m.append(" flag");
                            assert(digits@.subrange(0, digits@.len() as int) =~= val@);
                            return Err(m);
                        },
                        Some(v) => {
                            assert(digits@.subrange(0, digits@.len() as int) =~= val@);
                            let v = v as usize;
                            let ghost seen = st.seen.insert(flag);
                            if flag == 's' {
                                s = v;
                                seen_s = true;
                                proof {
                                    st = Settings { s: v, seen, ..st };
                                }
                            } else if flag == 'E' {
                                e = v;
                                seen_e = true;
                                proof {
                                    st = Settings { e: v, seen, ..st };
                                }
                            } else {
                                b = v;
                                seen_b = true;
                                proof {
                                    st = Settings { b: v, seen, ..st };
                                }
                            }
                        },
                    }
                } else {
                    return Err(flag_message("unknown flag: -", flag));
                }
            },
        }
        i = i + 1;
    }
    if s == 0 || e == 0 || b == 0 || t.as_str().is_empty() {
        return Err("missing required arguments, incorrect command-line format".to_string());
    }
    Ok((s, e, b, t))
}

/// Reads the command line `args` (the program name first): the geometry
/// and the trace file name, as `(s, e, b, t)`.
pub fn parse_args(args: &[String]) -> (r: Result<(usize, usize, usize, String), String>)
    ensures
        settings_view(r) == read_options(
            getopt_options(args@.map_values(|a: String| a@), optstring()),
            0,
            no_settings(),
        ),
{
    let items = getopt_parse(args, "s:E:b:t:");
    parse_options(&items)
}

} // verus!
