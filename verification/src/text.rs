//! Text primitives over `Seq<char>` views: ordering, equality, base names, extensions and
//! decimal numerals.

use vstd::prelude::*;
use vstd::std_specs::iter::IteratorSpec;

verus! {

broadcast use vstd::string::group_string_axioms;

/// Lexicographic order on character sequences, characters compared by code point.
pub open spec fn lex_before(a: Seq<char>, b: Seq<char>) -> bool
    decreases a.len(),
{
    if b.len() == 0 {
        false
    } else if a.len() == 0 {
        true
    } else if a[0] != b[0] {
        (a[0] as u32) < (b[0] as u32)
    } else {
        lex_before(a.drop_first(), b.drop_first())
    }
}

/// No sequence comes before itself.
pub proof fn lemma_lex_irreflexive(a: Seq<char>)
    ensures
        !lex_before(a, a),
    decreases a.len(),
{
    if a.len() > 0 {
        lemma_lex_irreflexive(a.drop_first());
    }
}

/// The order is transitive.
pub proof fn lemma_lex_transitive(a: Seq<char>, b: Seq<char>, c: Seq<char>)
    requires
        lex_before(a, b),
        lex_before(b, c),
    ensures
        lex_before(a, c),
    decreases a.len(),
{
    if a.len() > 0 && b.len() > 0 && c.len() > 0 && a[0] == b[0] && b[0] == c[0] {
        lemma_lex_transitive(a.drop_first(), b.drop_first(), c.drop_first());
    }
}

/// Distinct characters have distinct code points.
proof fn lemma_code_points_differ(c: char, d: char)
    requires
        c != d,
    ensures
        (c as u32) != (d as u32),
{
}

/// Any two distinct sequences are ordered one way or the other.
pub proof fn lemma_lex_total(a: Seq<char>, b: Seq<char>)
    ensures
        lex_before(a, b) || lex_before(b, a) || a == b,
    decreases a.len(),
{
    if a.len() == 0 || b.len() == 0 {
        if a.len() == 0 && b.len() == 0 {
            assert(a =~= b);
        }
    } else if a[0] == b[0] {
        lemma_lex_total(a.drop_first(), b.drop_first());
        if a.drop_first() == b.drop_first() {
            assert(a =~= seq![a[0]] + a.drop_first());
            assert(b =~= seq![b[0]] + b.drop_first());
        }
    } else {
        lemma_code_points_differ(a[0], b[0]);
    }
}

/// Compares two strings lexicographically by code point.
pub fn str_before(a: &str, b: &str) -> (r: bool)
    ensures
        r == lex_before(a@, b@),
{
    let mut ia = a.chars();
    let mut ib = b.chars();
    loop
        invariant
            lex_before(a@, b@) == lex_before(ia.remaining(), ib.remaining()),
            ia.decrease() is Some,
        decreases ia.decrease()->0,
    {
        match ia.next() {
            None => {
                let rest = ib.next();
                return rest.is_some();
            },
            Some(ca) => {
                match ib.next() {
                    None => {
                        return false;
                    },
                    Some(cb) => {
                        if ca != cb {
                            return (ca as u32) < (cb as u32);
                        }
                    },
                }
            },
        }
    }
}

/// Tells whether two strings hold the same characters.
pub fn str_equal(a: &str, b: &str) -> (r: bool)
    ensures
        r == (a@ == b@),
{
    let mut ia = a.chars();
    let mut ib = b.chars();
    let ghost mut i: int = 0;
    loop
        invariant
            0 <= i <= a@.len(),
            i <= b@.len(),
            ia.remaining() == a@.skip(i),
            ib.remaining() == b@.skip(i),
            a@.take(i) == b@.take(i),
            ia.decrease() is Some,
        decreases ia.decrease()->0,
    {
        match ia.next() {
            None => {
                let rest = ib.next();
                proof {
                    assert(a@.take(i) =~= a@);
                    if rest is None {
                        assert(b@.take(i) =~= b@);
                    }
                }
                return rest.is_none();
            },
            Some(ca) => {
                match ib.next() {
                    None => {
                        assert(b@.take(i) =~= b@);
                        return false;
                    },
                    Some(cb) => {
                        if ca != cb {
                            assert(a@[i] != b@[i]);
                            return false;
                        }
                        proof {
                            assert(a@.skip(i).drop_first() =~= a@.skip(i + 1));
                            assert(b@.skip(i).drop_first() =~= b@.skip(i + 1));
                            assert(a@.take(i + 1) =~= a@.take(i).push(ca));
                            assert(b@.take(i + 1) =~= b@.take(i).push(cb));
                            i = i + 1;
                        }
                    },
                }
            },
        }
    }
}

/// Position of the last occurrence of `c` in `s`, or -1 when `c` does not occur.
pub open spec fn last_index_of(s: Seq<char>, c: char) -> int
    decreases s.len(),
{
    if s.len() == 0 {
        -1
    } else if s.last() == c {
        s.len() - 1
    } else {
        last_index_of(s.drop_last(), c)
    }
}

/// `last_index_of` is the greatest position that holds `c`.
pub proof fn lemma_last_index_of(s: Seq<char>, c: char)
    ensures
        -1 <= last_index_of(s, c) < s.len(),
        last_index_of(s, c) >= 0 ==> s[last_index_of(s, c)] == c,
        forall|i: int| last_index_of(s, c) < i < s.len() ==> s[i] != c,
    decreases s.len(),
{
    if s.len() > 0 && s.last() != c {
        lemma_last_index_of(s.drop_last(), c);
        assert forall|i: int| last_index_of(s, c) < i < s.len() implies s[i] != c by {
            if i < s.len() - 1 {
                assert(s.drop_last()[i] == s[i]);
            }
        }
    }
}

/// Finds the last occurrence of `c` in `s`, counted in characters.
pub fn find_last(s: &str, c: char) -> (r: Option<usize>)
    ensures
        match r {
            Some(k) => k as int == last_index_of(s@, c),
            None => last_index_of(s@, c) == -1,
        },
{
    let n = s.unicode_len();
    let mut it = s.chars();
    let mut i: usize = 0;
    let mut found: Option<usize> = None;
    loop
        invariant
            n == s@.len(),
            i <= n,
            it.remaining() == s@.skip(i as int),
            match found {
                Some(k) => k as int == last_index_of(s@.take(i as int), c),
                None => last_index_of(s@.take(i as int), c) == -1,
            },
            it.decrease() is Some,
        decreases it.decrease()->0,
    {
        match it.next() {
            None => {
                assert(s@.take(i as int) =~= s@);
                return found;
            },
            Some(x) => {
                assert(s@.take(i + 1).drop_last() =~= s@.take(i as int));
                assert(s@.skip(i as int).drop_first() =~= s@.skip(i + 1));
                if x == c {
                    found = Some(i);
                }
                i = i + 1;
            },
        }
    }
}

/// The final component of a `/`-separated path: what follows the last `/`, or the whole
/// path when it holds none.
pub open spec fn base_name(path: Seq<char>) -> Seq<char> {
    path.skip(last_index_of(path, '/') + 1)
}

/// The base name holds no separator, and the path is the base name behind a prefix that
/// is empty or ends in a separator.
pub proof fn lemma_base_name(path: Seq<char>)
    ensures
        !base_name(path).contains('/'),
        base_name(path).len() <= path.len(),
        path == path.take(path.len() - base_name(path).len()) + base_name(path),
        base_name(path).len() < path.len() ==> path[path.len() - base_name(path).len() - 1]
            == '/',
{
    lemma_last_index_of(path, '/');
    let k = last_index_of(path, '/');
    assert(path =~= path.take(k + 1) + path.skip(k + 1));
    if base_name(path).contains('/') {
        let j = choose|j: int| 0 <= j < base_name(path).len() && base_name(path)[j] == '/';
        assert(path[k + 1 + j] == '/');
    }
}

/// Returns the final component of a `/`-separated path.
pub fn path_base_name(path: &str) -> (r: &str)
    ensures
        r@ == base_name(path@),
{
    let n = path.unicode_len();
    proof {
        lemma_last_index_of(path@, '/');
    }
    match find_last(path, '/') {
        Some(k) => {
            let r = path.substring_char(k + 1, n);
            assert(path@.subrange(k + 1, n as int) =~= path@.skip(k + 1));
            r
        },
        None => {
            assert(path@.skip(0) =~= path@);
            path
        },
    }
}

/// A name is hidden when it starts with a dot.
pub open spec fn is_hidden_name(name: Seq<char>) -> bool {
    name.len() > 0 && name[0] == '.'
}

/// Tells whether a name starts with a dot.
pub fn name_is_hidden(name: &str) -> (r: bool)
    ensures
        r == is_hidden_name(name@),
{
    let mut it = name.chars();
    match it.next() {
        Some(c) => c == '.',
        None => false,
    }
}

/// The extension of a file name: the last dot and what follows it, provided that
/// something follows it.
pub open spec fn extension_of(name: Seq<char>) -> Option<Seq<char>> {
    let k = last_index_of(name, '.');
    if 0 <= k && k + 1 < name.len() {
        Some(name.skip(k))
    } else {
        None
    }
}

/// Returns the extension of a file name, with its leading dot.
pub fn name_extension(name: &str) -> (r: Option<String>)
    ensures
        match r {
            Some(e) => extension_of(name@) == Some(e@),
            None => extension_of(name@) is None,
        },
{
    let n = name.unicode_len();
    proof {
        lemma_last_index_of(name@, '.');
    }
    match find_last(name, '.') {
        Some(k) => {
            if k + 1 < n {
                let tail = name.substring_char(k, n);
                assert(name@.subrange(k as int, n as int) =~= name@.skip(k as int));
                Some(tail.to_owned())
            } else {
                None
            }
        },
        None => None,
    }
}

/// The decimal digit for a value below ten.
pub open spec fn digit_char(d: nat) -> char {
    if d == 0 {
        '0'
    } else if d == 1 {
        '1'
    } else if d == 2 {
        '2'
    } else if d == 3 {
        '3'
    } else if d == 4 {
        '4'
    } else if d == 5 {
        '5'
    } else if d == 6 {
        '6'
    } else if d == 7 {
        '7'
    } else if d == 8 {
        '8'
    } else {
        '9'
    }
}

/// The decimal numeral of a natural number, without leading zeros.
pub open spec fn decimal(n: nat) -> Seq<char>
    decreases n,
{
    if n < 10 {
        seq![digit_char(n)]
    } else {
        decimal(n / 10).push(digit_char(n % 10))
    }
}

/// The one-character string for a digit.
fn digit_str(d: u64) -> (r: &'static str)
    requires
        d < 10,
    ensures
        r@ == seq![digit_char(d as nat)],
{
    proof {
        reveal_strlit("0");
        reveal_strlit("1");
        reveal_strlit("2");
        reveal_strlit("3");
        reveal_strlit("4");
        reveal_strlit("5");
        reveal_strlit("6");
        reveal_strlit("7");
        reveal_strlit("8");
        reveal_strlit("9");
    }
    let r = if d == 0 {
        "0"
    } else if d == 1 {
        "1"
    } else if d == 2 {
        "2"
    } else if d == 3 {
        "3"
    } else if d == 4 {
        "4"
    } else if d == 5 {
        "5"
    } else if d == 6 {
        "6"
    } else if d == 7 {
        "7"
    } else if d == 8 {
        "8"
    } else {
        "9"
    };
    assert(r@ =~= seq![digit_char(d as nat)]);
    r
}

/// Writes a number as a decimal numeral.
pub fn decimal_string(n: u64) -> (r: String)
    ensures
        r@ == decimal(n as nat),
    decreases n,
{
    if n < 10 {
        String::from_str(digit_str(n))
    } else {
        let mut r = decimal_string(n / 10);
        r.append(digit_str(n % 10));
        assert(r@ =~= decimal((n / 10) as nat).push(digit_char((n % 10) as nat)));
        r
    }
}

} // verus!
