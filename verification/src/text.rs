//! Text rules for file names: paths, zero-padded numbers, number parsing.
//!
//! Paths are `/`-separated strings.
use vstd::prelude::*;
use vstd::string::*;

verus! {

// ─── Paths ───────────────────────────────────────────────────────────────────

/// The path of the file `name` inside the directory `dir`.
pub open spec fn joined(dir: Seq<char>, name: Seq<char>) -> Seq<char> {
    if dir.len() == 0 || dir.last() == '/' {
        dir + name
    } else {
        dir.push('/') + name
    }
}

/// What follows the last `/` of `path`.
pub open spec fn last_component(path: Seq<char>) -> Seq<char>
    decreases path.len(),
{
    if path.len() == 0 || path.last() == '/' {
        Seq::empty()
    } else {
        last_component(path.drop_last()).push(path.last())
    }
}

/// The final component of `path`, if it names something: empty and `.`
/// components are passed over, `..` names nothing.
pub open spec fn final_name(path: Seq<char>) -> Option<Seq<char>>
    decreases path.len(),
{
    if path.len() == 0 {
        None
    } else if path.last() == '/' || last_component(path) == seq!['.'] {
        final_name(path.drop_last())
    } else if last_component(path) == seq!['.', '.'] {
        None
    } else {
        Some(last_component(path))
    }
}

/// The characters of `s`.
pub fn chars_of(s: &str) -> (out: Vec<char>)
    ensures
        out@ == s@,
{
    let mut out: Vec<char> = Vec::new();
    for c in it: s.chars()
        invariant
            out@ == it.seq().take(it.index() as int),
            it.seq() == s@,
    {
        out.push(c);
    }
    out
}

/// Join `dir` and the relative `name` into one path.
pub fn join(dir: &str, name: &str) -> (path: String)
    ensures
        path@ == joined(dir@, name@),
{
    let cs = chars_of(dir);
    let mut path = dir.to_owned();
    if cs.len() > 0 && cs[cs.len() - 1] != '/' {
        path.append("/");
        proof {
            reveal_strlit("/");
            assert(path@ =~= dir@.push('/'));
        }
    }
    path.append(name);
    path
}

/// The position in `cs[..end]` behind the last `/`.
fn component_start(cs: &Vec<char>, end: usize) -> (start: usize)
    requires
        end <= cs@.len(),
    ensures
        start <= end,
        last_component(cs@.take(end as int)) == cs@.subrange(start as int, end as int),
{
    let mut start: usize = end;
    let ghost path = cs@.take(end as int);
    assert(path.skip(end as int) =~= Seq::<char>::empty());
    assert(last_component(path) =~= last_component(path) + path.skip(end as int));
    assert(path.take(end as int) =~= path);
    while start > 0 && cs[start - 1] != '/'
        invariant
            start <= end <= cs@.len(),
            path == cs@.take(end as int),
            last_component(path) == last_component(path.take(start as int)) + path.skip(
                start as int,
            ),
        decreases start,
    {
        proof {
            let head = path.take(start as int);
            assert(head.drop_last() =~= path.take(start - 1));
            assert(head.last() == cs@[start - 1]);
            assert(last_component(head) + path.skip(start as int) =~= last_component(
                path.take(start - 1),
            ) + path.skip(start - 1));
        }
        start = start - 1;
    }
    proof {
        let head = path.take(start as int);
        if start > 0 {
            assert(head.last() == cs@[start - 1]);
        }
        assert(last_component(head) =~= Seq::<char>::empty());
        assert(path.skip(start as int) =~= cs@.subrange(start as int, end as int));
        assert(last_component(path) =~= cs@.subrange(start as int, end as int));
    }
    start
}

/// The final component of `path`, or `None` if it ends in `..` or names nothing.
pub fn file_name(path: &str) -> (name: Option<String>)
    ensures
        match name {
            Some(n) => final_name(path@) == Some(n@),
            None => final_name(path@) is None,
        },
{
    let cs = chars_of(path);
    let mut end: usize = cs.len();
    assert(cs@.take(end as int) =~= path@);
    while end > 0
        invariant
            end <= cs@.len(),
            cs@ == path@,
            final_name(path@) == final_name(cs@.take(end as int)),
        decreases end,
    {
        let ghost head = cs@.take(end as int);
        proof {
            assert(head.last() == cs@[end - 1]);
            assert(head.drop_last() =~= cs@.take(end - 1));
        }
        if cs[end - 1] == '/' {
            end = end - 1;
            continue;
        }
        let start = component_start(&cs, end);
        let ghost comp = cs@.subrange(start as int, end as int);
        if end - start == 1 && cs[start] == '.' {
            assert(comp =~= seq!['.']);
            end = end - 1;
            continue;
        }
        assert(comp != seq!['.']) by {
            if comp == seq!['.'] {
                assert(comp.len() == 1 && comp[0] == '.');
            }
        }
        if end - start == 2 && cs[start] == '.' && cs[start + 1] == '.' {
            assert(comp =~= seq!['.', '.']);
            return None;
        }
        assert(comp != seq!['.', '.']) by {
            if comp == seq!['.', '.'] {
                assert(comp.len() == 2 && comp[0] == '.' && comp[1] == '.');
            }
        }
        return Some(path.substring_char(start, end).to_owned());
    }
    assert(cs@.take(0) =~= Seq::<char>::empty());
    None
}

/// A joined path ends in the name that was joined, for a name that is one
/// ordinary component.
pub proof fn lemma_final_name_of_joined(dir: Seq<char>, name: Seq<char>)
    requires
        name.len() > 0,
        !name.contains('/'),
        name != seq!['.'],
        name != seq!['.', '.'],
    ensures
        final_name(joined(dir, name)) == Some(name),
{
    let base = if dir.len() == 0 || dir.last() == '/' {
        dir
    } else {
        dir.push('/')
    };
    lemma_last_component_of_suffix(base, name);
    let path = base + name;
    assert(path == joined(dir, name));
    assert(path.last() == name.last());
    assert(name.contains(name.last()));
}

proof fn lemma_last_component_of_suffix(base: Seq<char>, name: Seq<char>)
    requires
        base.len() == 0 || base.last() == '/',
        !name.contains('/'),
    ensures
        last_component(base + name) == name,
    decreases name.len(),
{
    let path = base + name;
    if name.len() == 0 {
        assert(path =~= base);
        assert(last_component(path) =~= name);
    } else {
        let shorter = name.drop_last();
        assert(path.drop_last() =~= base + shorter);
        assert(path.last() == name.last());
        assert(name.contains(name.last()));
        assert forall|c: char| shorter.contains(c) implies name.contains(c) by {
            let i = choose|i: int| 0 <= i < shorter.len() && shorter[i] == c;
            assert(name[i] == c);
        }
        lemma_last_component_of_suffix(base, shorter);
        assert(last_component(path) =~= name);
    }
}

/// Different names in one directory have different paths.
pub proof fn lemma_joined_injective(dir: Seq<char>, a: Seq<char>, b: Seq<char>)
    requires
        joined(dir, a) == joined(dir, b),
    ensures
        a == b,
{
    let base = if dir.len() == 0 || dir.last() == '/' {
        dir
    } else {
        dir.push('/')
    };
    assert(a =~= (base + a).skip(base.len() as int));
    assert(b =~= (base + b).skip(base.len() as int));
}

// ─── Prefixes and suffixes ───────────────────────────────────────────────────

/// What follows `prefix` in `s`, if `s` starts with it.
pub open spec fn stripped_prefix(s: Seq<char>, prefix: Seq<char>) -> Option<Seq<char>> {
    if prefix.len() <= s.len() && s.take(prefix.len() as int) == prefix {
        Some(s.skip(prefix.len() as int))
    } else {
        None
    }
}

/// What stands before `suffix` in `s`, if `s` ends with it.
pub open spec fn stripped_suffix(s: Seq<char>, suffix: Seq<char>) -> Option<Seq<char>> {
    if suffix.len() <= s.len() && s.skip(s.len() - suffix.len()) == suffix {
        Some(s.take(s.len() - suffix.len()))
    } else {
        None
    }
}

/// Whether `part` stands in `cs` at position `at`.
fn stands_at(cs: &Vec<char>, part: &Vec<char>, at: usize) -> (r: bool)
    requires
        at + part@.len() <= cs@.len(),
    ensures
        r == (cs@.subrange(at as int, at + part@.len()) == part@),
{
    let mut i: usize = 0;
    while i < part.len()
        invariant
            i <= part@.len(),
            at + part@.len() <= cs.len(),
            forall|j: int| 0 <= j < i ==> cs@[at + j] == #[trigger] part@[j],
        decreases part@.len() - i,
    {
        if cs[at + i] != part[i] {
            assert(cs@.subrange(at as int, at + part@.len())[i as int] != part@[i as int]);
            return false;
        }
        i = i + 1;
    }
    assert(cs@.subrange(at as int, at + part@.len()) =~= part@);
    true
}

/// Remove `prefix` from the front of `s`.
pub fn strip_prefix<'a>(s: &'a str, prefix: &str) -> (r: Option<&'a str>)
    ensures
        match r {
            Some(rest) => stripped_prefix(s@, prefix@) == Some(rest@),
            None => stripped_prefix(s@, prefix@) is None,
        },
{
    let cs = chars_of(s);
    let part = chars_of(prefix);
    if part.len() <= cs.len() {
        assert(s@.take(prefix@.len() as int) =~= s@.subrange(0, prefix@.len() as int));
        if stands_at(&cs, &part, 0) {
            let rest = s.substring_char(part.len(), cs.len());
            assert(rest@ =~= s@.skip(prefix@.len() as int));
            return Some(rest);
        }
    }
    None
}

/// Remove `suffix` from the end of `s`.
pub fn strip_suffix<'a>(s: &'a str, suffix: &str) -> (r: Option<&'a str>)
    ensures
        match r {
            Some(rest) => stripped_suffix(s@, suffix@) == Some(rest@),
            None => stripped_suffix(s@, suffix@) is None,
        },
{
    let cs = chars_of(s);
    let part = chars_of(suffix);
    if part.len() <= cs.len() {
        let at: usize = cs.len() - part.len();
        assert(s@.skip(at as int) =~= s@.subrange(at as int, at + suffix@.len()));
        if stands_at(&cs, &part, at) {
            let rest = s.substring_char(0, at);
            assert(rest@ =~= s@.take(at as int));
            return Some(rest);
        }
    }
    None
}

// ─── Numbers ─────────────────────────────────────────────────────────────────

/// The decimal digit `d` as a character.
pub open spec fn digit_char(d: nat) -> char {
    (48 + d) as char
}

/// The last `width` decimal digits of `x`, zero-padded on the left.
pub open spec fn decimal(x: nat, width: nat) -> Seq<char>
    decreases width,
{
    if width == 0 {
        Seq::empty()
    } else {
        decimal(x / 10, (width - 1) as nat).push(digit_char(x % 10))
    }
}

pub open spec fn is_digit(c: char) -> bool {
    '0' <= c <= '9'
}

pub open spec fn all_digits(s: Seq<char>) -> bool {
    forall|i: int| 0 <= i < s.len() ==> is_digit(#[trigger] s[i])
}

/// The number that the decimal digits of `s` spell.
pub open spec fn decimal_value(s: Seq<char>) -> nat
    decreases s.len(),
{
    if s.len() == 0 {
        0
    } else {
        decimal_value(s.drop_last()) * 10 + (s.last() as nat - 48) as nat
    }
}

/// An unsigned 64-bit number in decimal: an optional `+`, at least one digit,
/// nothing else, and no overflow.
pub open spec fn parsed_u64(s: Seq<char>) -> Option<u64> {
    let digits = if s.len() > 0 && s[0] == '+' {
        s.skip(1)
    } else {
        s
    };
    if digits.len() > 0 && all_digits(digits) && decimal_value(digits) <= u64::MAX {
        Some(decimal_value(digits) as u64)
    } else {
        None
    }
}

fn digit_text(d: u64) -> (s: &'static str)
    requires
        d < 10,
    ensures
        s@ == seq![digit_char(d as nat)],
{
    proof {
        reveal_strlit("0");
        reveal_strlit("1");
        reveal_strlit("2");
        reveal_strlit("3");
        reveal_strlit("4");
        reveal_strlit("5");
        reveal_strlit("6");
        reveal_strlit("7");
        reveal_strlit("8");
        reveal_strlit("9");
    }
    let s = match d {
        0 => "0",
        1 => "1",
        2 => "2",
        3 => "3",
        4 => "4",
        5 => "5",
        6 => "6",
        7 => "7",
        8 => "8",
        _ => "9",
    };
    assert(s@ =~= seq![digit_char(d as nat)]);
    s
}

/// Append the last `width` decimal digits of `x` to `out`.
pub fn put_decimal(out: &mut String, x: u64, width: usize)
    ensures
        final(out)@ == old(out)@ + decimal(x as nat, width as nat),
    decreases width,
{
    if width > 0 {
        let ghost start = out@;
        put_decimal(out, x / 10, width - 1);
        out.append(digit_text(x % 10));
        assert(out@ =~= start + decimal(x as nat, width as nat));
    } else {
        assert(out@ =~= out@ + decimal(x as nat, 0));
    }
}

/// Parse a decimal number.
pub fn parse_u64(s: &str) -> (r: Option<u64>)
    ensures
        r == parsed_u64(s@),
{
    let cs = chars_of(s);
    let first: usize = if cs.len() > 0 && cs[0] == '+' {
        1
    } else {
        0
    };
    let ghost digits = if s@.len() > 0 && s@[0] == '+' {
        s@.skip(1)
    } else {
        s@
    };
    assert(digits =~= s@.skip(first as int));
    if first == cs.len() {
        return None;
    }
    let mut value: u64 = 0;
    let mut i: usize = first;
    assert(digits.take(0) =~= Seq::<char>::empty());
    while i < cs.len()
        invariant
            first <= i <= cs@.len(),
            cs@ == s@,
            digits == s@.skip(first as int),
            digits.len() > 0,
            parsed_u64(s@) == (if all_digits(digits) && decimal_value(digits) <= u64::MAX {
                Some(decimal_value(digits) as u64)
            } else {
                None
            }),
            all_digits(digits.take(i - first)),
            value == decimal_value(digits.take(i - first)),
        decreases cs@.len() - i,
    {
        let c = cs[i];
        let ghost head = digits.take(i - first);
        let ghost next = digits.take(i - first + 1);
        proof {
            assert(next.drop_last() =~= head);
            assert(next.last() == c);
            assert(digits[i - first] == c);
        }
        if !('0' <= c && c <= '9') {
            return None;
        }
        let d: u64 = (c as u32 - 48) as u64;
        if value > u64::MAX / 10 || value * 10 > u64::MAX - d {
            proof {
                if all_digits(digits) {
                    assert(decimal_value(next) > u64::MAX);
                    lemma_decimal_value_mono(digits, i - first + 1);
                }
            }
            return None;
        }
        value = value * 10 + d;
        i = i + 1;
    }
    assert(digits.take(i - first) =~= digits);
    Some(value)
}

proof fn lemma_decimal_value_mono(s: Seq<char>, n: int)
    requires
        0 <= n <= s.len(),
    ensures
        decimal_value(s.take(n)) <= decimal_value(s),
    decreases s.len(),
{
    if n == s.len() {
        assert(s.take(n) =~= s);
    } else {
        assert(s.take(n) =~= s.drop_last().take(n));
        lemma_decimal_value_mono(s.drop_last(), n);
    }
}

/// `10` to the power `width`.
pub open spec fn decimal_range(width: nat) -> nat
    decreases width,
{
    if width == 0 {
        1
    } else {
        10 * decimal_range((width - 1) as nat)
    }
}

/// Zero-padded digits are digits, as many as asked for, and spell the number
/// that was written.
pub proof fn lemma_decimal_roundtrip(x: nat, width: nat)
    requires
        x < decimal_range(width),
    ensures
        decimal(x, width).len() == width,
        all_digits(decimal(x, width)),
        decimal_value(decimal(x, width)) == x,
    decreases width,
{
    if width > 0 {
        let s = decimal(x, width);
        lemma_decimal_roundtrip(x / 10, (width - 1) as nat);
        assert(s.drop_last() =~= decimal(x / 10, (width - 1) as nat));
        assert(s.last() == digit_char(x % 10));
        assert forall|i: int| 0 <= i < s.len() implies is_digit(#[trigger] s[i]) by {
            if i < s.len() - 1 {
                assert(s[i] == s.drop_last()[i]);
            }
        }
    }
}

/// A number in decimal is read digit by digit, the highest first; a `+` in front makes
/// no difference, and anything else that is no digit makes it no number.
pub proof fn numbers_are_read_digit_by_digit(s: Seq<char>, c: char)
    ensures
        parsed_u64(Seq::empty()) is None,
        parsed_u64(seq!['+']) is None,
        '0' <= c <= '9' ==> parsed_u64(seq![c]) == Some((c as int - 48) as u64),
        s.len() > 0 && '0' <= s[0] <= '9' ==> parsed_u64(seq!['+'] + s) == parsed_u64(s),
        s.len() > 0 && s != seq!['+'] ==> parsed_u64(s.push(c)) == match parsed_u64(s) {
            Some(v) => if '0' <= c <= '9' && v * 10 + (c as int - 48) <= u64::MAX {
                Some((v * 10 + (c as int - 48)) as u64)
            } else {
                None
            },
            None => None,
        },
{
    let none = Seq::<char>::empty();
    let plus = seq!['+'];
    assert(plus.skip(1) =~= none);
    let one = seq![c];
    assert(one.drop_last() =~= none);
    assert(one.last() == c);
    reveal_with_fuel(decimal_value, 2);
    if '0' <= c <= '9' {
        assert(one[0] == c);
        assert(all_digits(one));
    }
    if s.len() > 0 {
        assert((plus + s).skip(1) =~= s);
        let more = s.push(c);
        let signed = s[0] == '+';
        let digits = if signed {
            s.skip(1)
        } else {
            s
        };
        let longer = if signed {
            more.skip(1)
        } else {
            more
        };
        assert(more[0] == s[0]);
        assert(longer =~= digits.push(c));
        assert(longer.drop_last() =~= digits);
        assert(longer.last() == c);
        if digits.len() == 0 {
            assert(s =~= plus);
        }
        assert(all_digits(longer) <==> all_digits(digits) && is_digit(c)) by {
            if all_digits(longer) {
                assert forall|i: int| 0 <= i < digits.len() implies is_digit(
                    #[trigger] digits[i],
                ) by {
                    assert(longer[i] == digits[i]);
                }
                assert(longer[longer.len() - 1] == c);
            }
        }
    }
}

pub proof fn lemma_decimal_range_20()
    ensures
        decimal_range(20) == 100_000_000_000_000_000_000,
{
    reveal_with_fuel(decimal_range, 21);
}

/// A name is joined to a directory by one `/`, which stands already where the directory
/// ends in it, and which is left out where there is no directory.
pub proof fn names_are_joined_by_a_slash(dir: Seq<char>, name: Seq<char>)
    ensures
        joined(Seq::empty(), name) == name,
        joined(dir.push('/'), name) == dir.push('/') + name,
        dir.len() > 0 && dir.last() != '/' ==> joined(dir, name) == joined(dir.push('/'), name),
{
    assert(Seq::<char>::empty() + name =~= name);
}

} // verus!
