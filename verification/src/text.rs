//! Text primitives: the string operations the rest of the crate is written with, each with a
//! contract over the characters of its arguments.
use vstd::prelude::*;
use vstd::string::*;

verus! {

/// The characters of `s`, in order.
pub fn chars_of(s: &str) -> (v: Vec<char>)
    ensures
        v@ == s@,
{
    let mut v: Vec<char> = Vec::new();
    for c in it: s.chars()
        invariant
            it.seq() == s@,
            v@ == s@.take(it.index() as int),
    {
        v.push(c);
    }
    v
}

/// Whether two strings hold the same characters.
pub fn same(a: &str, b: &str) -> (r: bool)
    ensures
        r == (a@ == b@),
{
    a.to_owned() == b.to_owned()
}

/// `a` followed by `b`.
pub fn cat(a: &str, b: &str) -> (r: String)
    ensures
        r@ == a@ + b@,
{
    a.to_owned().concat(b)
}

/// A vector of the same strings.
pub fn copy_strings(v: &Vec<String>) -> (r: Vec<String>)
    ensures
        r@ == v@,
{
    let r = v.clone();
    assert(r@ =~= v@);
    r
}

/// An option on the same string.
pub fn copy_opt(o: &Option<String>) -> (r: Option<String>)
    ensures
        r == *o,
{
    match o {
        Some(s) => Some(s.clone()),
        None => None,
    }
}

// ----- characters removed from the ends -----

/// The code points with the Unicode property White_Space.
pub open spec fn is_white_space(c: char) -> bool {
    let u = c as u32;
    ||| 0x9 <= u <= 0xd
    ||| u == 0x20
    ||| u == 0x85
    ||| u == 0xa0
    ||| u == 0x1680
    ||| 0x2000 <= u <= 0x200a
    ||| u == 0x2028
    ||| u == 0x2029
    ||| u == 0x202f
    ||| u == 0x205f
    ||| u == 0x3000
}

/// What is taken off the ends of a text.
#[derive(Clone, Copy)]
pub enum Edge {
    /// White space.
    Space,
    /// The path separator.
    Slash,
}

/// Whether `e` takes `c` off.
pub open spec fn strips(e: Edge, c: char) -> bool {
    match e {
        Edge::Space => is_white_space(c),
        Edge::Slash => c == '/',
    }
}

/// `s` without its longest prefix of characters that `e` takes off.
pub open spec fn strip_front(e: Edge, s: Seq<char>) -> Seq<char>
    decreases s.len(),
{
    if s.len() > 0 && strips(e, s[0]) {
        strip_front(e, s.drop_first())
    } else {
        s
    }
}

/// `s` without its longest suffix of characters that `e` takes off.
pub open spec fn strip_back(e: Edge, s: Seq<char>) -> Seq<char>
    decreases s.len(),
{
    if s.len() > 0 && strips(e, s.last()) {
        strip_back(e, s.drop_last())
    } else {
        s
    }
}

/// `s` with both ends taken off.
pub open spec fn strip(e: Edge, s: Seq<char>) -> Seq<char> {
    strip_back(e, strip_front(e, s))
}

/// `s` without white space at its ends.
pub open spec fn trimmed(s: Seq<char>) -> Seq<char> {
    strip(Edge::Space, s)
}

fn takes(e: Edge, c: char) -> (r: bool)
    ensures
        r == strips(e, c),
{
    match e {
        Edge::Space => {
            let u: u32 = c as u32;
            (0x9 <= u && u <= 0xd) || u == 0x20 || u == 0x85 || u == 0xa0 || u == 0x1680 || (0x2000
                <= u && u <= 0x200a) || u == 0x2028 || u == 0x2029 || u == 0x202f || u == 0x205f
                || u == 0x3000
        },
        Edge::Slash => c == '/',
    }
}

fn front_end(e: Edge, cs: &Vec<char>) -> (i: usize)
    ensures
        i <= cs@.len(),
        strip_front(e, cs@) == cs@.skip(i as int),
{
    let mut i: usize = 0;
    assert(cs@.skip(0) =~= cs@);
    while i < cs.len() && takes(e, cs[i])
        invariant
            i <= cs@.len(),
            strip_front(e, cs@) == strip_front(e, cs@.skip(i as int)),
        decreases cs@.len() - i,
    {
        assert(cs@.skip(i as int).drop_first() =~= cs@.skip(i + 1));
        i = i + 1;
    }
    i
}

fn back_end(e: Edge, cs: &Vec<char>, i: usize) -> (j: usize)
    requires
        i <= cs@.len(),
    ensures
        i <= j <= cs@.len(),
        strip_back(e, cs@.skip(i as int)) == cs@.subrange(i as int, j as int),
{
    let mut j: usize = cs.len();
    assert(cs@.skip(i as int) =~= cs@.subrange(i as int, j as int));
    while j > i && takes(e, cs[j - 1])
        invariant
            i <= j <= cs@.len(),
            strip_back(e, cs@.skip(i as int)) == strip_back(e, cs@.subrange(i as int, j as int)),
        decreases j,
    {
        assert(cs@.subrange(i as int, j as int).drop_last() =~= cs@.subrange(i as int, j - 1));
        j = j - 1;
    }
    j
}

/// `s` with both ends taken off.
pub fn strip_edges(e: Edge, s: &str) -> (r: String)
    ensures
        r@ == strip(e, s@),
{
    let cs = chars_of(s);
    let i: usize = front_end(e, &cs);
    let j: usize = back_end(e, &cs, i);
    s.substring_char(i, j).to_owned()
}

/// `s` with its back taken off.
pub fn strip_tail(e: Edge, s: &str) -> (r: String)
    ensures
        r@ == strip_back(e, s@),
{
    let cs = chars_of(s);
    let j: usize = back_end(e, &cs, 0);
    assert(cs@.skip(0) =~= cs@);
    s.substring_char(0, j).to_owned()
}

/// What is left after a front strip is a suffix.
pub proof fn lemma_strip_front(e: Edge, s: Seq<char>)
    ensures
        strip_front(e, s).len() <= s.len(),
        strip_front(e, s) == s.skip(s.len() - strip_front(e, s).len()),
        strip_front(e, s).len() > 0 ==> !strips(e, strip_front(e, s)[0]),
    decreases s.len(),
{
    if s.len() > 0 && strips(e, s[0]) {
        lemma_strip_front(e, s.drop_first());
        let t = strip_front(e, s.drop_first());
        assert(s.drop_first().skip(s.drop_first().len() - t.len()) =~= s.skip(s.len() - t.len()));
    } else {
        assert(s.skip(0) =~= s);
    }
}

/// What is left after a back strip is a prefix.
pub proof fn lemma_strip_back(e: Edge, s: Seq<char>)
    ensures
        strip_back(e, s).len() <= s.len(),
        strip_back(e, s) == s.take(strip_back(e, s).len() as int),
        strip_back(e, s).len() > 0 ==> !strips(e, strip_back(e, s).last()),
    decreases s.len(),
{
    if s.len() > 0 && strips(e, s.last()) {
        lemma_strip_back(e, s.drop_last());
        let t = strip_back(e, s.drop_last());
        assert(s.drop_last().take(t.len() as int) =~= s.take(t.len() as int));
    } else {
        assert(s.take(s.len() as int) =~= s);
    }
}

/// A stripped text has no end left to take off, and is a piece of the text it came from.
pub proof fn lemma_strip(e: Edge, s: Seq<char>)
    ensures
        strip(e, s).len() > 0 ==> !strips(e, strip(e, s)[0]) && !strips(e, strip(e, s).last()),
        exists|i: int, j: int| 0 <= i <= j <= s.len() && strip(e, s) == s.subrange(i, j),
{
    lemma_strip_front(e, s);
    let f = strip_front(e, s);
    lemma_strip_back(e, f);
    let b = strip_back(e, f);
    let i = s.len() - f.len();
    assert(b =~= s.subrange(i, i + b.len()));
    if b.len() > 0 {
        assert(b[0] == f[0]);
    }
}

/// A text with nothing to take off is left alone.
pub proof fn lemma_strip_fixed(e: Edge, s: Seq<char>)
    requires
        s.len() > 0 ==> !strips(e, s[0]) && !strips(e, s.last()),
    ensures
        strip(e, s) == s,
{
}

// ----- separators, pieces, order -----

/// The index of the last `/`, or -1.
pub open spec fn last_slash(s: Seq<char>) -> int
    decreases s.len(),
{
    if s.len() == 0 {
        -1
    } else if s.last() == '/' {
        s.len() - 1
    } else {
        last_slash(s.drop_last())
    }
}

/// What follows the last `/`; all of `s` if there is none.
pub open spec fn base_name(s: Seq<char>) -> Seq<char> {
    s.skip(last_slash(s) + 1)
}

/// `last_slash` finds a slash, and the last one.
pub proof fn lemma_last_slash(s: Seq<char>)
    ensures
        -1 <= last_slash(s) < s.len(),
        last_slash(s) >= 0 ==> s[last_slash(s)] == '/',
        forall|k: int| last_slash(s) < k < s.len() ==> s[k] != '/',
    decreases s.len(),
{
    if s.len() > 0 && s.last() != '/' {
        lemma_last_slash(s.drop_last());
        assert forall|k: int| last_slash(s) < k < s.len() implies s[k] != '/' by {
            if k < s.len() - 1 {
                assert(s.drop_last()[k] != '/');
            }
        }
    }
}

/// The index of the last `/` among `cs`.
pub fn rfind_slash(cs: &Vec<char>) -> (r: Option<usize>)
    ensures
        match r {
            Some(i) => i == last_slash(cs@),
            None => last_slash(cs@) == -1,
        },
{
    let mut n: usize = cs.len();
    assert(cs@.take(n as int) =~= cs@);
    while n > 0
        invariant
            n <= cs@.len(),
            last_slash(cs@) == last_slash(cs@.take(n as int)),
        decreases n,
    {
        assert(cs@.take(n as int).last() == cs@[n - 1]);
        if cs[n - 1] == '/' {
            return Some(n - 1);
        }
        assert(cs@.take(n as int).drop_last() =~= cs@.take(n - 1));
        n = n - 1;
    }
    None
}

/// What follows the last `/` of `s`.
pub fn name_of(s: &str) -> (r: String)
    ensures
        r@ == base_name(s@),
{
    let cs = chars_of(s);
    let n: usize = cs.len();
    proof {
        lemma_last_slash(s@);
    }
    let from: usize = match rfind_slash(&cs) {
        Some(i) => i + 1,
        None => 0,
    };
    assert(s@.subrange(from as int, n as int) =~= s@.skip(from as int));
    s.substring_char(from, n).to_owned()
}

/// Whether `s` begins with `p`.
pub open spec fn begins(s: Seq<char>, p: Seq<char>) -> bool {
    p.len() <= s.len() && s.take(p.len() as int) == p
}

/// Whether `p` occurs in `s`.
pub open spec fn has_piece(s: Seq<char>, p: Seq<char>) -> bool {
    exists|i: int| piece_at(s, p, i)
}

/// Whether `p` occurs in `s` at index `i`.
pub open spec fn piece_at(s: Seq<char>, p: Seq<char>, i: int) -> bool {
    0 <= i && i + p.len() <= s.len() && s.subrange(i, i + p.len()) == p
}

/// Whether `s` begins with `p`.
pub fn starts_with(s: &str, p: &str) -> (r: bool)
    ensures
        r == begins(s@, p@),
{
    let n: usize = p.unicode_len();
    if n > s.unicode_len() {
        return false;
    }
    assert(s@.subrange(0, n as int) =~= s@.take(n as int));
    same(s.substring_char(0, n), p)
}

/// Whether `p` occurs in `s`.
pub fn contains(s: &str, p: &str) -> (r: bool)
    ensures
        r == has_piece(s@, p@),
{
    let n: usize = s.unicode_len();
    let m: usize = p.unicode_len();
    if m > n {
        assert forall|i: int| !piece_at(s@, p@, i) by {}
        return false;
    }
    let mut i: usize = 0;
    while i <= n - m
        invariant
            n == s@.len(),
            m == p@.len(),
            m <= n,
            i <= n - m + 1,
            forall|k: int| 0 <= k < i ==> !piece_at(s@, p@, k),
        decreases n - m + 1 - i,
    {
        if same(s.substring_char(i, i + m), p) {
            assert(piece_at(s@, p@, i as int));
            return true;
        }
        if i == n - m {
            assert forall|k: int| !piece_at(s@, p@, k) by {}
            return false;
        }
        i = i + 1;
    }
    false
}

/// The order of strings: by code point, at the first place where they differ.
pub open spec fn lex_lt(a: Seq<char>, b: Seq<char>) -> bool
    decreases b.len(),
{
    if b.len() == 0 {
        false
    } else if a.len() == 0 {
        true
    } else if a[0] != b[0] {
        (a[0] as u32) < (b[0] as u32)
    } else {
        lex_lt(a.drop_first(), b.drop_first())
    }
}

proof fn lemma_code_points(c: char, d: char)
    ensures
        c != d ==> c as u32 != d as u32,
{
}

/// The order is a strict total one.
pub proof fn lemma_lex_total(a: Seq<char>, b: Seq<char>)
    ensures
        lex_lt(a, b) ==> !lex_lt(b, a) && a != b,
        a != b ==> lex_lt(a, b) || lex_lt(b, a),
    decreases a.len(),
{
    if a.len() > 0 && b.len() > 0 {
        lemma_lex_total(a.drop_first(), b.drop_first());
        lemma_code_points(a[0], b[0]);
        if a[0] == b[0] && a.drop_first() == b.drop_first() {
            assert(a =~= seq![a[0]] + a.drop_first());
            assert(b =~= seq![b[0]] + b.drop_first());
        }
    } else if a.len() == 0 && b.len() == 0 {
        assert(a =~= b);
    }
}

/// The order is transitive.
pub proof fn lemma_lex_trans(a: Seq<char>, b: Seq<char>, c: Seq<char>)
    requires
        lex_lt(a, b),
        lex_lt(b, c),
    ensures
        lex_lt(a, c),
    decreases a.len(),
{
    if a.len() > 0 && b.len() > 0 && c.len() > 0 && a[0] == b[0] && b[0] == c[0] {
        lemma_lex_trans(a.drop_first(), b.drop_first(), c.drop_first());
    }
}

/// Whether `a` comes before `b`.
pub fn before(a: &str, b: &str) -> (r: bool)
    ensures
        r == lex_lt(a@, b@),
{
    let x = chars_of(a);
    let y = chars_of(b);
    let mut i: usize = 0;
    assert(x@.skip(0) =~= x@);
    assert(y@.skip(0) =~= y@);
    while i < x.len() && i < y.len()
        invariant
            i <= x@.len(),
            i <= y@.len(),
            x@ == a@,
            y@ == b@,
            lex_lt(a@, b@) == lex_lt(x@.skip(i as int), y@.skip(i as int)),
        decreases x@.len() - i,
    {
        let c: u32 = x[i] as u32;
        let d: u32 = y[i] as u32;
        if x[i] != y[i] {
            return c < d;
        }
        assert(x@.skip(i as int).drop_first() =~= x@.skip(i + 1));
        assert(y@.skip(i as int).drop_first() =~= y@.skip(i + 1));
        i = i + 1;
    }
    i < y.len()
}

// ----- numbers -----

/// The digits, by value.
pub const DIGITS: &'static str = "0123456789";

/// `n` in decimal.
pub open spec fn decimal(n: nat) -> Seq<char>
    decreases n,
{
    if n < 10 {
        seq![DIGITS@[n as int]]
    } else {
        decimal(n / 10).push(DIGITS@[(n % 10) as int])
    }
}

/// `n` in decimal.
pub fn decimal_of(n: u64) -> (r: String)
    ensures
        r@ == decimal(n as nat),
    decreases n,
{
    proof {
        reveal_strlit("0123456789");
    }
    let d: usize = (n % 10) as usize;
    let digit = DIGITS.substring_char(d, d + 1);
    assert(digit@ =~= seq![DIGITS@[d as int]]);
    if n < 10 {
        digit.to_owned()
    } else {
        let head = decimal_of(n / 10);
        let r = head.concat(digit);
        assert(r@ =~= decimal(n as nat));
        r
    }
}

/// The number that digits stand for.
pub open spec fn numeral(s: Seq<char>) -> nat
    decreases s.len(),
{
    if s.len() == 0 {
        0
    } else {
        (10 * numeral(s.drop_last()) + (s.last() as u32 - '0' as u32)) as nat
    }
}

/// A number is written in digits, without a zero in front, and they stand for that number.
pub proof fn law_decimal_is_the_numeral(n: nat)
    ensures
        decimal(n).len() > 0,
        forall|i: int| 0 <= i < decimal(n).len() ==> '0' <= #[trigger] decimal(n)[i] <= '9',
        n > 0 ==> decimal(n)[0] != '0',
        numeral(decimal(n)) == n,
    decreases n,
{
    reveal_strlit("0123456789");
    let s = decimal(n);
    let d = (n % 10) as int;
    assert(DIGITS@[d] as u32 == '0' as u32 + d);
    if n < 10 {
        assert(s.drop_last() =~= Seq::<char>::empty());
        assert(numeral(s.drop_last()) == 0);
        assert(s.last() == DIGITS@[d]);
    } else {
        law_decimal_is_the_numeral(n / 10);
        assert(s.drop_last() =~= decimal(n / 10));
        assert(s.last() == DIGITS@[d]);
        assert(s[0] == decimal(n / 10)[0]);
    }
}

// ----- what the operations on texts mean -----

/// The white space of a text is the 25 code points that Unicode gives that property.
pub proof fn law_white_space_is_that_of_unicode(c: char)
    ensures
        is_white_space(c) <==> seq![
            0x9u32,
            0xa,
            0xb,
            0xc,
            0xd,
            0x20,
            0x85,
            0xa0,
            0x1680,
            0x2000,
            0x2001,
            0x2002,
            0x2003,
            0x2004,
            0x2005,
            0x2006,
            0x2007,
            0x2008,
            0x2009,
            0x200a,
            0x2028,
            0x2029,
            0x202f,
            0x205f,
            0x3000,
        ].contains(c as u32),
{
    let s = seq![
        0x9u32,
        0xa,
        0xb,
        0xc,
        0xd,
        0x20,
        0x85,
        0xa0,
        0x1680,
        0x2000,
        0x2001,
        0x2002,
        0x2003,
        0x2004,
        0x2005,
        0x2006,
        0x2007,
        0x2008,
        0x2009,
        0x200a,
        0x2028,
        0x2029,
        0x202f,
        0x205f,
        0x3000,
    ];
    let u = c as u32;
    if is_white_space(c) {
        let i: int = if u <= 0xd {
            u - 9
        } else if u == 0x20 {
            5
        } else if u == 0x85 {
            6
        } else if u == 0xa0 {
            7
        } else if u == 0x1680 {
            8
        } else if u <= 0x200a {
            9 + (u - 0x2000)
        } else if u == 0x2028 {
            20
        } else if u == 0x2029 {
            21
        } else if u == 0x202f {
            22
        } else if u == 0x205f {
            23
        } else {
            24
        };
        assert(s[i] == u);
    }
    if s.contains(u) {
        let i = choose|i: int| 0 <= i < s.len() && s[i] == u;
        assert(s[i] == u);
    }
}

/// A text between two runs of what is taken off, that neither begins nor ends with any of it, is what
/// is left; and nothing is left of such a run alone.
pub proof fn law_only_the_ends_are_taken_off(
    e: Edge,
    front: Seq<char>,
    core: Seq<char>,
    back: Seq<char>,
)
    requires
        forall|k: int| 0 <= k < front.len() ==> strips(e, #[trigger] front[k]),
        forall|k: int| 0 <= k < back.len() ==> strips(e, #[trigger] back[k]),
        core.len() > 0 ==> !strips(e, core[0]) && !strips(e, core.last()),
    ensures
        strip(e, front + core + back) == core,
        core.len() > 0 ==> strip_back(e, front + core + back) == front + core,
        strips(Edge::Slash, '/'),
        forall|c: char| #[trigger] strips(Edge::Slash, c) ==> c == '/',
        forall|c: char| #[trigger] strips(Edge::Space, c) <==> is_white_space(c),
{
    let s = front + core + back;
    if core.len() > 0 {
        assert(s =~= front + (core + back));
        lemma_front_run(e, front, core + back);
        lemma_back_run(e, core, back);
        lemma_back_run(e, front + core, back);
    } else {
        assert(s =~= (front + back) + Seq::<char>::empty());
        assert forall|k: int| 0 <= k < (front + back).len() implies strips(
            e,
            #[trigger] (front + back)[k],
        ) by {
            if k >= front.len() {
                assert((front + back)[k] == back[k - front.len()]);
            }
        }
        lemma_front_run(e, front + back, Seq::<char>::empty());
        assert(core =~= Seq::<char>::empty());
    }
}

proof fn lemma_front_run(e: Edge, run: Seq<char>, rest: Seq<char>)
    requires
        forall|k: int| 0 <= k < run.len() ==> strips(e, #[trigger] run[k]),
        rest.len() > 0 ==> !strips(e, rest[0]),
    ensures
        strip_front(e, run + rest) == rest,
    decreases run.len(),
{
    if run.len() == 0 {
        assert(run + rest =~= rest);
    } else {
        assert((run + rest)[0] == run[0]);
        assert((run + rest).drop_first() =~= run.drop_first() + rest);
        lemma_front_run(e, run.drop_first(), rest);
    }
}

proof fn lemma_back_run(e: Edge, rest: Seq<char>, run: Seq<char>)
    requires
        forall|k: int| 0 <= k < run.len() ==> strips(e, #[trigger] run[k]),
        rest.len() > 0 ==> !strips(e, rest.last()),
    ensures
        strip_back(e, rest + run) == rest,
    decreases run.len(),
{
    if run.len() == 0 {
        assert(rest + run =~= rest);
    } else {
        assert((rest + run).last() == run.last());
        assert((rest + run).drop_last() =~= rest + run.drop_last());
        lemma_back_run(e, rest, run.drop_last());
    }
}

/// The name at the end of a path is what follows its last `/`, or all of it.
pub proof fn law_base_name_follows_the_last_slash(dir: Seq<char>, name: Seq<char>)
    requires
        forall|k: int| 0 <= k < name.len() ==> name[k] != '/',
    ensures
        base_name(name) == name,
        base_name(dir + seq!['/'] + name) == name,
{
    let p = dir + seq!['/'] + name;
    lemma_last_slash(p);
    lemma_last_slash(name);
    assert(p[dir.len() as int] == '/');
    assert forall|k: int| dir.len() < k < p.len() implies p[k] != '/' by {
        assert(p[k] == name[k - dir.len() - 1]);
    }
    assert(base_name(p) =~= name);
    assert(base_name(name) =~= name);
}

/// One text comes before another if it has the lesser code point where they first differ, or if the
/// other goes on where it ends.
pub proof fn law_order_is_by_code_point(head: Seq<char>, a: Seq<char>, b: Seq<char>)
    requires
        a.len() > 0 && b.len() > 0 ==> a[0] != b[0],
    ensures
        lex_lt(head + a, head + b) <==> b.len() > 0 && (a.len() == 0 || (a[0] as u32) < (
        b[0] as u32)),
    decreases head.len(),
{
    if head.len() == 0 {
        assert(head + a =~= a);
        assert(head + b =~= b);
    } else {
        assert((head + a).drop_first() =~= head.drop_first() + a);
        assert((head + b).drop_first() =~= head.drop_first() + b);
        assert((head + a)[0] == head[0] && (head + b)[0] == head[0]);
        law_order_is_by_code_point(head.drop_first(), a, b);
    }
}

/// A text begins with what it is made of in front, and occurs in every text that it is a part of; and
/// each such text can be taken apart so.
pub proof fn law_pieces_make_up_the_text(front: Seq<char>, p: Seq<char>, back: Seq<char>, s: Seq<char>)
    ensures
        begins(p + back, p),
        has_piece(front + p + back, p),
        begins(s, p) ==> s == p + s.skip(p.len() as int),
        has_piece(s, p) ==> exists|i: int|
            0 <= i && i + p.len() <= s.len() && s == #[trigger] s.take(i) + p + s.skip(
                i + p.len(),
            ),
{
    assert((p + back).take(p.len() as int) =~= p);
    let whole = front + p + back;
    assert(whole.subrange(front.len() as int, (front.len() + p.len()) as int) =~= p);
    assert(piece_at(whole, p, front.len() as int));
    if begins(s, p) {
        assert(s =~= p + s.skip(p.len() as int));
    }
    if has_piece(s, p) {
        let i = choose|i: int| piece_at(s, p, i);
        assert(s =~= s.take(i) + p + s.skip(i + p.len())) by {
            assert forall|k: int| i <= k < i + p.len() implies s[k] == p[k - i] by {
                assert(s.subrange(i, i + p.len())[k - i] == s[k]);
            }
        }
    }
}

} // verus!
