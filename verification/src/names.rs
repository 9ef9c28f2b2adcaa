use vstd::prelude::*;
use vstd::string::StrSliceExecFns;
use vstd::string::StringExecFns;
use convert_case::{Case, Casing};

verus! {

/// The snake_case rendering of a string, as convert_case produces it.
pub uninterp spec fn snake_of(s: Seq<char>) -> Seq<char>;

/// The PascalCase rendering of a string, as convert_case produces it.
pub uninterp spec fn pascal_of(s: Seq<char>) -> Seq<char>;

/// Relies on convert_case's `Casing::to_case` with `Case::Snake`: the
/// conversion reads nothing but the characters of its input, so its
/// result is a function of them alone.
#[verifier::external_body]
pub(crate) fn make_field_name(name: &str) -> (r: String)
    ensures
        r@ == snake_of(name@),
{
    name.to_case(Case::Snake)
}

/// Relies on convert_case's `Casing::to_case` with `Case::Pascal`: the
/// conversion reads nothing but the characters of its input, so its
/// result is a function of them alone.
#[verifier::external_body]
pub(crate) fn make_class_name(name: &str) -> (r: String)
    ensures
        r@ == pascal_of(name@),
{
    name.to_case(Case::Pascal)
}

/// Keys that would clash with a keyword of the target language get a
/// trailing underscore.
pub open spec fn safe_key(s: Seq<char>) -> Seq<char> {
    if s == "global"@ {
        "global_"@
    } else if s == "class"@ {
        "class_"@
    } else {
        s
    }
}

pub(crate) fn to_safe_key(s: &str) -> (r: String)
    ensures
        r@ == safe_key(s@),
{
    if crate::strutil::str_eq(s, "global") {
        String::from_str("global_")
    } else if crate::strutil::str_eq(s, "class") {
        String::from_str("class_")
    } else {
        s.to_owned()
    }
}

/// A field's generated identifier: the snake_case form of its schema
/// key, kept clear of target-language keywords.
pub open spec fn field_key(s: Seq<char>) -> Seq<char> {
    safe_key(snake_of(s))
}

/// Strips at most one trailing 's' from an array's candidate name; a
/// name not ending in 's' is left unchanged.  A naive heuristic, not a
/// general singularizer.
pub fn singularize_name(name: &str) -> (r: String)
    ensures
        name@.len() > 0 && name@.last() == 's' ==> r@ == name@.drop_last(),
        !(name@.len() > 0 && name@.last() == 's') ==> r@ == name@,
{
    let len = name.unicode_len();
    if len > 0 && name.get_char(len - 1) == 's' {
        let r = name.substring_char(0, len - 1);
        proof {
            assert(r@ =~= name@.drop_last());
        }
        r.to_owned()
    } else {
        name.to_owned()
    }
}

/// The singular form used in specifications.
pub open spec fn singular_of(s: Seq<char>) -> Seq<char> {
    if s.len() > 0 && s.last() == 's' {
        s.drop_last()
    } else {
        s
    }
}

/// The index of the first '/' in `s`, or `s.len()` when none occurs.
pub open spec fn first_slash(s: Seq<char>) -> int
    decreases s.len(),
{
    if s.len() == 0 {
        0
    } else if s[0] == '/' {
        0
    } else {
        1 + first_slash(s.drop_first())
    }
}

pub proof fn lemma_first_slash_bounds(s: Seq<char>)
    ensures
        0 <= first_slash(s) <= s.len(),
        first_slash(s) < s.len() ==> s[first_slash(s)] == '/',
        forall|k: int| 0 <= k < first_slash(s) ==> s[k] != '/',
    decreases s.len(),
{
    if s.len() > 0 && s[0] != '/' {
        lemma_first_slash_bounds(s.drop_first());
        assert(forall|k: int|
            1 <= k < first_slash(s) ==> s[k] == s.drop_first()[k - 1]);
    }
}

/// Skipping a slash-free prefix does not move the first slash.
proof fn lemma_first_slash_skip(s: Seq<char>, i: int)
    requires
        0 <= i <= s.len(),
        forall|k: int| 0 <= k < i ==> s[k] != '/',
    ensures
        first_slash(s) == i + first_slash(s.skip(i)),
    decreases i,
{
    if i > 0 {
        assert(s[0] != '/');
        lemma_first_slash_skip(s.drop_first(), i - 1);
        assert(s.drop_first().skip(i - 1) =~= s.skip(i));
    } else {
        assert(s.skip(0) =~= s);
    }
}

/// Finds the first '/' at or after `from`, or the end of the string.
fn find_slash(s: &str, from: usize) -> (r: usize)
    requires
        from <= s@.len(),
    ensures
        from <= r <= s@.len(),
        r - from == first_slash(s@.skip(from as int)),
{
    let len = s.unicode_len();
    let mut j: usize = from;
    #[verifier::loop_isolation(false)]
    while j < len
        invariant
            from <= j <= len,
            forall|k: int| from <= k < j ==> s@[k] != '/',
        decreases len - j,
    {
        if s.get_char(j) == '/' {
            proof {
                assert(forall|k: int| 0 <= k < j - from ==> s@.skip(from as int)[k] != '/');
                lemma_first_slash_skip(s@.skip(from as int), j - from);
                assert(s@.skip(from as int).skip(j - from) =~= s@.skip(j as int));
                assert(s@.skip(j as int)[0] == '/');
            }
            return j;
        }
        j = j + 1;
    }
    proof {
        assert(forall|k: int| 0 <= k < j - from ==> s@.skip(from as int)[k] != '/');
        lemma_first_slash_skip(s@.skip(from as int), j - from);
        assert(s@.skip(from as int).skip(j - from) =~= s@.skip(j as int));
        assert(s@.skip(j as int).len() == 0);
    }
    j
}

/// Position just past the second '/' of a reference pointer.
pub open spec fn ref_target_start(s: Seq<char>) -> int {
    let a = first_slash(s);
    a + 1 + first_slash(s.skip(a + 1)) + 1
}

/// A reference pointer names a definition when it has at least two
/// slashes: the target is the segment after the second one.
pub open spec fn ref_wellformed(s: Seq<char>) -> bool {
    let a = first_slash(s);
    &&& a < s.len()
    &&& a + 1 + first_slash(s.skip(a + 1)) < s.len()
}

/// The third slash-separated segment of a reference pointer.
pub open spec fn ref_target(s: Seq<char>) -> Seq<char> {
    let b = ref_target_start(s);
    s.subrange(b, b + first_slash(s.skip(b)))
}

/// The registry name a reference pointer stands for, before case
/// conversion.
pub open spec fn ref_name(s: Seq<char>) -> Seq<char> {
    "def-"@ + ref_target(s)
}

/// Extracts the referenced definition's name from a reference pointer
/// and prefixes it with the definition marker.
pub fn resolve_ref(name: &str) -> (r: String)
    requires
        ref_wellformed(name@),
    ensures
        r@ == ref_name(name@),
{
    proof {
        lemma_first_slash_bounds(name@);
        lemma_first_slash_bounds(name@.skip(first_slash(name@) + 1));
        assert(name@.skip(0) =~= name@);
    }
    let len = name.unicode_len();
    let a = find_slash(name, 0);
    let b = find_slash(name, a + 1);
    let c = find_slash(name, b + 1);
    let target = name.substring_char(b + 1, c);
    let r = String::from_str("def-").concat(target);
    proof {
        assert(ref_target_start(name@) == b + 1);
        assert(target@ =~= ref_target(name@));
    }
    r
}

/// One decimal digit as a character.
pub open spec fn dec_digit(d: nat) -> char {
    if d == 0 {
        '0'
    } else if d == 1 {
        '1'
    } else if d == 2 {
        '2'
    } else if d == 3 {
        '3'
    } else if d == 4 {
        '4'
    } else if d == 5 {
        '5'
    } else if d == 6 {
        '6'
    } else if d == 7 {
        '7'
    } else if d == 8 {
        '8'
    } else {
        '9'
    }
}

/// The decimal rendering of a natural number.
pub open spec fn dec_digits(n: nat) -> Seq<char>
    decreases n,
{
    if n < 10 {
        seq![dec_digit(n)]
    } else {
        dec_digits(n / 10).push(dec_digit(n % 10))
    }
}

fn digit_str(d: u64) -> (r: &'static str)
    requires
        d < 10,
    ensures
        r@ == seq![dec_digit(d as nat)],
{
    let r: &'static str = if d == 0 {
        "0"
    } else if d == 1 {
        "1"
    } else if d == 2 {
        "2"
    } else if d == 3 {
        "3"
    } else if d == 4 {
        "4"
    } else if d == 5 {
        "5"
    } else if d == 6 {
        "6"
    } else if d == 7 {
        "7"
    } else if d == 8 {
        "8"
    } else {
        "9"
    };
    proof {
        reveal_strlit("0");
        reveal_strlit("1");
        reveal_strlit("2");
        reveal_strlit("3");
        reveal_strlit("4");
        reveal_strlit("5");
        reveal_strlit("6");
        reveal_strlit("7");
        reveal_strlit("8");
        reveal_strlit("9");
        assert(r@ =~= seq![dec_digit(d as nat)]);
    }
    r
}

/// Renders a number in decimal.
pub fn u64_to_string(n: u64) -> (r: String)
    ensures
        r@ == dec_digits(n as nat),
    decreases n,
{
    if n < 10 {
        digit_str(n).to_owned()
    } else {
        let mut s = u64_to_string(n / 10);
        s.append(digit_str(n % 10));
        proof {
            assert(s@ =~= dec_digits(n as nat));
        }
        s
    }
}

/// The text of a possibly negative integer literal.
pub open spec fn int_text(x: int) -> Seq<char> {
    if x >= 0 {
        dec_digits(x as nat)
    } else {
        "-"@ + dec_digits((-x) as nat)
    }
}

/// Renders a signed number in decimal.
pub fn i32_to_string(x: i32) -> (r: String)
    ensures
        r@ == int_text(x as int),
{
    if x >= 0 {
        u64_to_string(x as u64)
    } else {
        let m: u64 = (-(x as i64)) as u64;
        let digits = u64_to_string(m);
        let r = String::from_str("-").concat(digits.as_str());
        r
    }
}

/// The candidate name of one alternative of a disjunction.
pub open spec fn choice_name(name: Seq<char>, i: nat) -> Seq<char> {
    name + "_choice_"@ + dec_digits(i)
}

/// Builds the disambiguated candidate name for alternative `i`.
pub fn make_choice_name(name: &str, i: u64) -> (r: String)
    ensures
        r@ == choice_name(name@, i as nat),
{
    let digits = u64_to_string(i);
    name.to_owned().concat("_choice_").concat(digits.as_str())
}

/// The marker that registry-level definitions carry after case
/// conversion.
pub open spec fn starts_with_def(s: Seq<char>) -> bool {
    s.len() >= 3 && s[0] == 'D' && s[1] == 'e' && s[2] == 'f'
}

/// Decides whether a (case-converted) name carries the definition
/// marker.
pub fn has_def_prefix(s: &str) -> (r: bool)
    ensures
        r == starts_with_def(s@),
{
    if s.unicode_len() < 3 {
        return false;
    }
    s.get_char(0) == 'D' && s.get_char(1) == 'e' && s.get_char(2) == 'f'
}


/// Decides whether a reference pointer has the two slashes that mark
/// a definition segment.
pub fn check_ref_wellformed(s: &str) -> (r: bool)
    ensures
        r == ref_wellformed(s@),
{
    proof {
        assert(s@.skip(0) =~= s@);
    }
    let len = s.unicode_len();
    let a = find_slash(s, 0);
    if a >= len {
        return false;
    }
    let b = find_slash(s, a + 1);
    b < len
}

} // verus!
