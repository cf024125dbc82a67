use vstd::prelude::*;

verus! {

/// The byte `\0`, which separates the words of a command line.
pub const NUL: u8 = 0;

/// The byte `\n`.
pub const NEWLINE: u8 = 10;

/// The byte `+`.
pub const PLUS: u8 = 43;

/// The byte `,`.
pub const COMMA: u8 = 44;

/// The byte `-`.
pub const DASH: u8 = 45;

/// The byte `:`.
pub const COLON: u8 = 58;

/// The byte `=`.
pub const EQUALS: u8 = 61;

/// The byte `@`.
pub const AT: u8 = 64;

/// The contents of an optional byte slice.
pub open spec fn opt_bytes(o: Option<&[u8]>) -> Option<Seq<u8>> {
    match o {
        Some(b) => Some(b@),
        None => None,
    }
}

/// The contents of each slice of a sequence of slices.
pub open spec fn slices_view(s: Seq<&[u8]>) -> Seq<Seq<u8>> {
    s.map_values(|b: &[u8]| b@)
}

/// `i` is the position of the first `sep` in `s`, or `s.len()` where `s` holds none.
pub open spec fn is_first_index(s: Seq<u8>, sep: u8, i: int) -> bool {
    &&& 0 <= i <= s.len()
    &&& forall|j: int| 0 <= j < i ==> s[j] != sep
    &&& i < s.len() ==> s[i] == sep
}

/// The position of the first `sep` in `s`, or `s.len()` where `s` holds none.
pub open spec fn first_index(s: Seq<u8>, sep: u8) -> nat
    decreases s.len(),
{
    if s.len() == 0 {
        0
    } else if s[0] == sep {
        0
    } else {
        1 + first_index(s.drop_first(), sep)
    }
}

/// `first_index` is the one position that `is_first_index` describes.
pub proof fn lemma_first_index(s: Seq<u8>, sep: u8)
    ensures
        is_first_index(s, sep, first_index(s, sep) as int),
        forall|i: int| #[trigger] is_first_index(s, sep, i) ==> i == first_index(s, sep),
    decreases s.len(),
{
    if s.len() > 0 && s[0] != sep {
        lemma_first_index(s.drop_first(), sep);
        let k = first_index(s.drop_first(), sep) as int;
        assert forall|j: int| 0 <= j < k + 1 implies s[j] != sep by {
            if j > 0 {
                assert(s[j] == s.drop_first()[j - 1]);
            }
        }
        assert forall|i: int| #[trigger] is_first_index(s, sep, i) implies i == k + 1 by {
            assert(i > 0);
            assert(is_first_index(s.drop_first(), sep, i - 1)) by {
                assert forall|j: int| 0 <= j < i - 1 implies s.drop_first()[j] != sep by {
                    assert(s[j + 1] != sep);
                }
            }
        }
    }
}

/// `s` split at its first `sep`: the bytes before it and, where there is one, the bytes
/// after it.
pub open spec fn split_once(s: Seq<u8>, sep: u8) -> (Seq<u8>, Option<Seq<u8>>) {
    let i = first_index(s, sep) as int;
    if i < s.len() {
        (s.take(i), Some(s.skip(i + 1)))
    } else {
        (s, None)
    }
}

/// `s` split at every `sep`: the pieces between the separators, in order, empty ones
/// included; an input without `sep` gives one piece.
pub open spec fn split_all(s: Seq<u8>, sep: u8) -> Seq<Seq<u8>>
    decreases s.len(),
{
    let i = first_index(s, sep) as int;
    if i < s.len() {
        seq![s.take(i)] + split_all(s.skip(i + 1), sep)
    } else {
        seq![s]
    }
}

/// The pieces joined again, with `sep` between each two.
pub open spec fn join(pieces: Seq<Seq<u8>>, sep: u8) -> Seq<u8>
    decreases pieces.len(),
{
    if pieces.len() <= 1 {
        if pieces.len() == 1 {
            pieces[0]
        } else {
            Seq::empty()
        }
    } else {
        pieces[0] + seq![sep] + join(pieces.drop_first(), sep)
    }
}

/// No byte of `s` is `sep`.
pub open spec fn free_of(s: Seq<u8>, sep: u8) -> bool {
    forall|j: int| 0 <= j < s.len() ==> s[j] != sep
}

/// Splitting gives at least one piece, no piece holds the separator, and joining the
/// pieces gives back the input.
pub proof fn lemma_split_all(s: Seq<u8>, sep: u8)
    ensures
        split_all(s, sep).len() >= 1,
        forall|k: int| 0 <= k < split_all(s, sep).len() ==> free_of(#[trigger] split_all(s, sep)[k], sep),
        join(split_all(s, sep), sep) == s,
    decreases s.len(),
{
    lemma_first_index(s, sep);
    let i = first_index(s, sep) as int;
    if i < s.len() {
        let rest = s.skip(i + 1);
        lemma_split_all(rest, sep);
        let p = split_all(s, sep);
        assert(p =~= seq![s.take(i)] + split_all(rest, sep));
        assert(p.drop_first() =~= split_all(rest, sep));
        assert forall|k: int| 0 <= k < p.len() implies free_of(#[trigger] p[k], sep) by {
            if k > 0 {
                assert(p[k] == split_all(rest, sep)[k - 1]);
            }
        }
        assert(s =~= s.take(i) + seq![sep] + rest);
    }
}

/// Splitting at a byte that the input does not hold gives the input as one piece.
pub proof fn lemma_split_all_free(s: Seq<u8>, sep: u8)
    requires
        free_of(s, sep),
    ensures
        split_all(s, sep) == seq![s],
{
    lemma_first_index(s, sep);
    assert(is_first_index(s, sep, s.len() as int));
}

/// Splitting the pieces joined again gives the pieces back, where none holds the separator.
pub proof fn lemma_split_join(pieces: Seq<Seq<u8>>, sep: u8)
    requires
        pieces.len() >= 1,
        forall|k: int| 0 <= k < pieces.len() ==> free_of(#[trigger] pieces[k], sep),
    ensures
        split_all(join(pieces, sep), sep) == pieces,
    decreases pieces.len(),
{
    if pieces.len() == 1 {
        lemma_split_all_free(pieces[0], sep);
        assert(split_all(join(pieces, sep), sep) =~= pieces);
    } else {
        let head = pieces[0];
        let tail = pieces.drop_first();
        assert forall|k: int| 0 <= k < tail.len() implies free_of(#[trigger] tail[k], sep) by {
            assert(tail[k] == pieces[k + 1]);
        }
        lemma_split_join(tail, sep);
        let s = join(pieces, sep);
        assert(s == head + seq![sep] + join(tail, sep));
        assert(free_of(pieces[0], sep));
        lemma_first_index(s, sep);
        assert(is_first_index(s, sep, head.len() as int)) by {
            assert forall|j: int| 0 <= j < head.len() implies s[j] != sep by {
                assert(s[j] == head[j]);
            }
            assert(s[head.len() as int] == sep);
        }
        assert(s.take(head.len() as int) =~= head);
        assert(s.skip(head.len() as int + 1) =~= join(tail, sep));
        assert(split_all(s, sep) =~= seq![head] + tail);
        assert(seq![head] + tail =~= pieces);
    }
}

/// How many bytes of `s` are `b`.
pub open spec fn count_of(s: Seq<u8>, b: u8) -> nat
    decreases s.len(),
{
    if s.len() == 0 {
        0
    } else {
        count_of(s.drop_last(), b) + if s.last() == b {
            1nat
        } else {
            0nat
        }
    }
}

/// Counting over two texts put together adds the counts.
pub proof fn lemma_count_concat(a: Seq<u8>, c: Seq<u8>, b: u8)
    ensures
        count_of(a + c, b) == count_of(a, b) + count_of(c, b),
    decreases c.len(),
{
    if c.len() == 0 {
        assert(a + c =~= a);
    } else {
        lemma_count_concat(a, c.drop_last(), b);
        assert((a + c).drop_last() =~= a + c.drop_last());
    }
}

/// A text without `b` holds no `b`.
pub proof fn lemma_count_free(s: Seq<u8>, b: u8)
    requires
        free_of(s, b),
    ensures
        count_of(s, b) == 0,
    decreases s.len(),
{
    if s.len() > 0 {
        lemma_count_free(s.drop_last(), b);
    }
}

/// Each word with `sep` before it, all put together.
pub open spec fn prefixed(words: Seq<Seq<u8>>, sep: u8) -> Seq<u8>
    decreases words.len(),
{
    if words.len() == 0 {
        Seq::empty()
    } else {
        seq![sep] + words[0] + prefixed(words.drop_first(), sep)
    }
}

/// Joining pieces is the first piece followed by every other with `sep` before it.
pub proof fn lemma_join_prefixed(pieces: Seq<Seq<u8>>, sep: u8)
    requires
        pieces.len() >= 1,
    ensures
        join(pieces, sep) == pieces[0] + prefixed(pieces.drop_first(), sep),
    decreases pieces.len(),
{
    let tail = pieces.drop_first();
    if pieces.len() == 1 {
        assert(pieces[0] + prefixed(tail, sep) =~= pieces[0]);
    } else {
        lemma_join_prefixed(tail, sep);
        assert(tail.drop_first() =~= pieces.drop_first().drop_first());
        assert(pieces[0] + seq![sep] + (tail[0] + prefixed(tail.drop_first(), sep)) =~= pieces[0]
            + (seq![sep] + tail[0] + prefixed(tail.drop_first(), sep)));
    }
}

/// Pieces without `sep`, joined by it, hold one `sep` fewer than there are pieces.
pub proof fn lemma_count_join(pieces: Seq<Seq<u8>>, sep: u8)
    requires
        pieces.len() >= 1,
        forall|k: int| 0 <= k < pieces.len() ==> free_of(#[trigger] pieces[k], sep),
    ensures
        count_of(join(pieces, sep), sep) + 1 == pieces.len(),
    decreases pieces.len(),
{
    assert(free_of(pieces[0], sep));
    lemma_count_free(pieces[0], sep);
    if pieces.len() > 1 {
        let tail = pieces.drop_first();
        assert forall|k: int| 0 <= k < tail.len() implies free_of(#[trigger] tail[k], sep) by {
            assert(tail[k] == pieces[k + 1]);
        }
        lemma_count_join(tail, sep);
        lemma_count_concat(pieces[0] + seq![sep], join(tail, sep), sep);
        lemma_count_concat(pieces[0], seq![sep], sep);
        assert(count_of(seq![sep], sep) == 1) by {
            let one = seq![sep];
            assert(one.drop_last() =~= Seq::<u8>::empty());
            assert(count_of(Seq::<u8>::empty(), sep) == 0);
            assert(one.last() == sep);
        }
    }
}

/// Keeping the items that pass a test and transforming each is picking, with `filter_map`,
/// the transform where the test passes.
pub proof fn lemma_filter_map_is_filter<A, B>(
    s: Seq<A>,
    f: spec_fn(A) -> Option<B>,
    p: spec_fn(A) -> bool,
    g: spec_fn(A) -> B,
)
    requires
        forall|a: A| #[trigger] f(a) == if p(a) {
            Some(g(a))
        } else {
            None
        },
    ensures
        s.filter_map(f) == s.filter(p).map_values(g),
    decreases s.len(),
{
    reveal_with_fuel(Seq::<_>::filter, 1);
    if s.len() > 0 {
        lemma_filter_map_is_filter(s.drop_last(), f, p, g);
        assert(s.filter_map(f) =~= s.filter(p).map_values(g));
    } else {
        assert(s.filter_map(f) =~= s.filter(p).map_values(g));
    }
}

/// `s` begins with `prefix`.
pub open spec fn starts_with(s: Seq<u8>, prefix: Seq<u8>) -> bool {
    prefix.len() <= s.len() && s.take(prefix.len() as int) == prefix
}

/// `s` without the `b`s at its end.
pub open spec fn trim_end(s: Seq<u8>, b: u8) -> Seq<u8>
    decreases s.len(),
{
    if s.len() > 0 && s.last() == b {
        trim_end(s.drop_last(), b)
    } else {
        s
    }
}

/// Every byte of `s` is `b`.
pub open spec fn all_equal(s: Seq<u8>, b: u8) -> bool {
    forall|j: int| 0 <= j < s.len() ==> s[j] == b
}

/// `r` is what is left of `s` without its trailing `b`s exactly when `s` is `r` followed by
/// nothing but `b`s and `r` does not itself end in `b`.
pub proof fn lemma_trim_end(s: Seq<u8>, b: u8, r: Seq<u8>)
    ensures
        trim_end(s, b) == r <==> (r.len() <= s.len() && s.take(r.len() as int) == r && all_equal(
            s.skip(r.len() as int),
            b,
        ) && (r.len() == 0 || r.last() != b)),
    decreases s.len(),
{
    let n = r.len() as int;
    if s.len() == 0 {
        if n == 0 {
            assert(s.take(0) =~= r);
        }
    } else if s.last() == b {
        let t = s.drop_last();
        lemma_trim_end(t, b, r);
        if n <= t.len() {
            assert(s.take(n) =~= t.take(n));
            assert(s.skip(n) =~= t.skip(n).push(b));
            if all_equal(s.skip(n), b) {
                assert forall|j: int| 0 <= j < t.skip(n).len() implies t.skip(n)[j] == b by {
                    assert(t.skip(n)[j] == s.skip(n)[j]);
                }
            }
            if all_equal(t.skip(n), b) {
                assert forall|j: int| 0 <= j < s.skip(n).len() implies s.skip(n)[j] == b by {
                    if j < t.skip(n).len() {
                        assert(s.skip(n)[j] == t.skip(n)[j]);
                    } else {
                        assert(s.skip(n)[j] == s.last());
                    }
                }
            }
        } else if n == s.len() {
            if s.take(n) == r {
                assert(r.last() == s.last()) by {
                    assert(r[n - 1] == s.take(n)[n - 1]);
                }
            }
        }
    } else {
        if n < s.len() && all_equal(s.skip(n), b) {
            assert(s.skip(n)[s.len() - n - 1] == s.last());
        }
        if n == s.len() && s.take(n) == r {
            assert(s.take(n) =~= s);
            assert(r.last() == s.last());
        }
        if r == s {
            assert(s.take(n) =~= s);
            assert(s.skip(n) =~= Seq::<u8>::empty());
        }
        assert(trim_end(s, b) == s);
    }
}

/// The value of a digit in the given radix: `0`-`9`, then letters of either case from
/// ten up, where that value is below the radix.
pub open spec fn digit_of(b: u8, radix: nat) -> Option<nat> {
    let v: int = if 48 <= b <= 57 {
        b - 48
    } else if 97 <= b <= 122 {
        b - 87
    } else if 65 <= b <= 90 {
        b - 55
    } else {
        radix as int
    };
    if v < radix {
        Some(v as nat)
    } else {
        None
    }
}

/// Every byte of `s` is a digit in the radix.
pub open spec fn all_digits(s: Seq<u8>, radix: nat) -> bool {
    forall|i: int| 0 <= i < s.len() ==> #[trigger] digit_of(s[i], radix) is Some
}

/// The number that the digits of `s` write in the radix, most significant first.
pub open spec fn digits_value(s: Seq<u8>, radix: nat) -> nat
    decreases s.len(),
{
    if s.len() == 0 {
        0
    } else {
        let d: nat = match digit_of(s.last(), radix) {
            Some(v) => v,
            None => 0,
        };
        digits_value(s.drop_last(), radix) * radix + d
    }
}

/// The digits of an unsigned number: the text without one leading `+`.
pub open spec fn unsigned_digits(s: Seq<u8>) -> Seq<u8> {
    if s.len() > 0 && s[0] == PLUS {
        s.drop_first()
    } else {
        s
    }
}

/// An unsigned number written in the radix, as std's `from_str_radix` reads it: one
/// optional `+`, then at least one digit, and a value no larger than `max`.
pub open spec fn parse_unsigned(s: Seq<u8>, radix: nat, max: nat) -> Option<nat> {
    let d = unsigned_digits(s);
    if d.len() > 0 && all_digits(d, radix) && digits_value(d, radix) <= max {
        Some(digits_value(d, radix))
    } else {
        None
    }
}

/// The digit that writes a value below the radix: `0`-`9`, then lower-case letters.
pub open spec fn digit_char(v: nat) -> u8 {
    if v < 10 {
        (48 + v) as u8
    } else {
        (87 + v) as u8
    }
}

/// `n` written in the radix, most significant digit first, without leading zeros.
pub open spec fn render_digits(n: nat, radix: nat) -> Seq<u8>
    decreases n,
{
    if radix < 2 || n < radix {
        seq![digit_char(n)]
    } else {
        proof {
            vstd::arithmetic::div_mod::lemma_div_is_strictly_smaller(n as int, radix as int);
        }
        render_digits(n / radix, radix).push(digit_char(n % radix))
    }
}

/// The written digits of `n` are digits of the radix, begin with a digit, and have value `n`.
proof fn lemma_render_digits(n: nat, radix: nat)
    requires
        2 <= radix <= 36,
    ensures
        render_digits(n, radix).len() > 0,
        all_digits(render_digits(n, radix), radix),
        digits_value(render_digits(n, radix), radix) == n,
        digit_of(render_digits(n, radix)[0], radix) is Some,
    decreases n,
{
    let r = render_digits(n, radix);
    if n < radix {
        assert(r.drop_last() =~= Seq::<u8>::empty());
        assert(digits_value(Seq::<u8>::empty(), radix) == 0);
        assert(digit_of(digit_char(n), radix) == Some(n));
        assert(digits_value(r, radix) == digits_value(r.drop_last(), radix) * radix + n);
        assert(0nat * radix == 0) by (nonlinear_arith);
    } else {
        vstd::arithmetic::div_mod::lemma_div_is_strictly_smaller(n as int, radix as int);
        vstd::arithmetic::div_mod::lemma_fundamental_div_mod(n as int, radix as int);
        vstd::arithmetic::div_mod::lemma_mod_pos_bound(n as int, radix as int);
        let q = n / radix;
        let m = n % radix;
        lemma_render_digits(q, radix);
        let head = render_digits(q, radix);
        assert(r == head.push(digit_char(m)));
        assert(r.drop_last() =~= head);
        assert(digit_of(digit_char(m), radix) == Some(m));
        assert(digits_value(r, radix) == q * radix + m);
        assert(q * radix + m == n) by (nonlinear_arith)
            requires
                n == radix * q + m,
        ;
        assert forall|i: int| 0 <= i < r.len() implies #[trigger] digit_of(r[i], radix) is Some by {
            if i < head.len() {
                assert(r[i] == head[i]);
            }
        }
        assert(r[0] == head[0]);
    }
}

/// Every number no larger than `max` reads back from its digits in the radix, with or
/// without one leading `+`.
pub proof fn lemma_render_parses(n: nat, radix: nat, max: nat)
    requires
        2 <= radix <= 36,
        n <= max,
    ensures
        parse_unsigned(render_digits(n, radix), radix, max) == Some(n),
        parse_unsigned(seq![PLUS] + render_digits(n, radix), radix, max) == Some(n),
{
    lemma_render_digits(n, radix);
    let r = render_digits(n, radix);
    assert(r[0] != PLUS);
    assert(unsigned_digits(r) == r);
    assert((seq![PLUS] + r).drop_first() =~= r);
}

/// A number larger than `max` does not read.
pub proof fn lemma_too_large_does_not_parse(n: nat, radix: nat, max: nat)
    requires
        2 <= radix <= 36,
        n > max,
    ensures
        parse_unsigned(render_digits(n, radix), radix, max) is None,
{
    lemma_render_digits(n, radix);
    let r = render_digits(n, radix);
    assert(r[0] != PLUS);
}

/// The two slices hold the same bytes.
pub fn bytes_eq(a: &[u8], b: &[u8]) -> (r: bool)
    ensures
        r == (a@ == b@),
{
    if a.len() != b.len() {
        return false;
    }
    let mut i: usize = 0;
    while i < a.len()
        invariant
            a@.len() == b@.len(),
            i <= a@.len(),
            forall|j: int| 0 <= j < i ==> a@[j] == b@[j],
        decreases a@.len() - i,
    {
        if a[i] != b[i] {
            return false;
        }
        i = i + 1;
    }
    assert(a@ =~= b@);
    true
}

/// Whether `s` begins with `prefix`.
pub fn bytes_starts_with(s: &[u8], prefix: &[u8]) -> (r: bool)
    ensures
        r == starts_with(s@, prefix@),
{
    if prefix.len() > s.len() {
        return false;
    }
    let head = vstd::slice::slice_subrange(s, 0, prefix.len());
    bytes_eq(head, prefix)
}

/// The position of the first `sep` in `s`, or `s.len()` where `s` holds none.
pub fn find_byte(s: &[u8], sep: u8) -> (i: usize)
    ensures
        i == first_index(s@, sep),
        i <= s@.len(),
{
    let mut i: usize = 0;
    while i < s.len() && s[i] != sep
        invariant
            i <= s@.len(),
            forall|j: int| 0 <= j < i ==> s@[j] != sep,
        decreases s@.len() - i,
    {
        i = i + 1;
    }
    proof {
        lemma_first_index(s@, sep);
        assert(is_first_index(s@, sep, i as int));
    }
    i
}

/// `s` split at its first `sep`.
pub fn split_once_bytes<'a>(s: &'a [u8], sep: u8) -> (r: (&'a [u8], Option<&'a [u8]>))
    ensures
        (r.0@, opt_bytes(r.1)) == split_once(s@, sep),
{
    let i = find_byte(s, sep);
    if i < s.len() {
        let head = vstd::slice::slice_subrange(s, 0, i);
        let tail = vstd::slice::slice_subrange(s, i + 1, s.len());
        assert(tail@ =~= s@.skip(i + 1));
        (head, Some(tail))
    } else {
        assert(s@.subrange(0, s@.len() as int) =~= s@);
        (s, None)
    }
}

/// `s` split at every `sep`.
pub fn split_bytes<'a>(s: &'a [u8], sep: u8) -> (r: Vec<&'a [u8]>)
    ensures
        slices_view(r@) == split_all(s@, sep),
{
    let mut pieces: Vec<&'a [u8]> = Vec::new();
    let mut rest: &'a [u8] = s;
    loop
        invariant_except_break
            slices_view(pieces@) + split_all(rest@, sep) == split_all(s@, sep),
        ensures
            slices_view(pieces@) == split_all(s@, sep),
        decreases rest@.len(),
    {
        let ghost before = pieces@;
        let i = find_byte(rest, sep);
        if i < rest.len() {
            let head = vstd::slice::slice_subrange(rest, 0, i);
            let tail = vstd::slice::slice_subrange(rest, i + 1, rest.len());
            assert(tail@ =~= rest@.skip(i + 1));
            proof {
                assert(split_all(rest@, sep) == seq![head@] + split_all(tail@, sep));
            }
            pieces.push(head);
            assert(slices_view(pieces@) =~= slices_view(before) + seq![head@]);
            assert(slices_view(pieces@) + split_all(tail@, sep) =~= slices_view(before) + (seq![
                head@,
            ] + split_all(tail@, sep)));
            rest = tail;
        } else {
            proof {
                assert(split_all(rest@, sep) == seq![rest@]);
            }
            pieces.push(rest);
            assert(slices_view(pieces@) =~= slices_view(before) + seq![rest@]);
            break;
        }
    }
    pieces
}

/// `s` without the `b`s at its end.
pub fn trim_end_bytes(s: &[u8], b: u8) -> (r: &[u8])
    ensures
        r@ == trim_end(s@, b),
{
    let mut n: usize = s.len();
    assert(s@.take(n as int) =~= s@);
    while n > 0 && s[n - 1] == b
        invariant
            n <= s@.len(),
            trim_end(s@.take(n as int), b) == trim_end(s@, b),
        decreases n,
    {
        assert(s@.take(n as int).drop_last() =~= s@.take(n - 1));
        n = n - 1;
    }
    let r = vstd::slice::slice_subrange(s, 0, n);
    r
}

/// The value of one digit in the radix.
pub fn digit_value(b: u8, radix: u32) -> (r: Option<u32>)
    requires
        2 <= radix <= 36,
    ensures
        match r {
            Some(v) => digit_of(b, radix as nat) == Some(v as nat),
            None => digit_of(b, radix as nat) is None,
        },
{
    let v: u32 = if 48 <= b && b <= 57 {
        (b - 48) as u32
    } else if 97 <= b && b <= 122 {
        (b - 87) as u32
    } else if 65 <= b && b <= 90 {
        (b - 55) as u32
    } else {
        radix
    };
    if v < radix {
        Some(v)
    } else {
        None
    }
}

/// An unsigned number written in the radix, no larger than `u32::MAX`.
pub fn parse_u32_radix(s: &[u8], radix: u32) -> (r: Option<u32>)
    requires
        2 <= radix <= 36,
    ensures
        match r {
            Some(n) => parse_unsigned(s@, radix as nat, u32::MAX as nat) == Some(n as nat),
            None => parse_unsigned(s@, radix as nat, u32::MAX as nat) is None,
        },
{
    let d: &[u8] = if s.len() > 0 && s[0] == PLUS {
        vstd::slice::slice_subrange(s, 1, s.len())
    } else {
        s
    };
    assert(d@ =~= unsigned_digits(s@));
    if d.len() == 0 {
        return None;
    }
    let max: u64 = 0xffff_ffff;
    let mut acc: u64 = 0;
    let mut over: bool = false;
    let mut i: usize = 0;
    assert(d@.take(0) =~= Seq::<u8>::empty());
    while i < d.len()
        invariant
            2 <= radix <= 36,
            max == u32::MAX,
            d@ == unsigned_digits(s@),
            i <= d@.len(),
            all_digits(d@.take(i as int), radix as nat),
            !over ==> acc == digits_value(d@.take(i as int), radix as nat) && acc <= max,
            over ==> digits_value(d@.take(i as int), radix as nat) > max,
        decreases d@.len() - i,
    {
        let ghost prev = d@.take(i as int);
        let ghost next_prefix = d@.take(i + 1);
        assert(next_prefix.drop_last() =~= prev);
        assert(next_prefix.last() == d@[i as int]);
        match digit_value(d[i], radix) {
            None => {
                assert(!all_digits(d@, radix as nat)) by {
                    assert(digit_of(d@[i as int], radix as nat) is None);
                }
                return None;
            },
            Some(v) => {
                assert(digits_value(next_prefix, radix as nat) == digits_value(prev, radix as nat)
                    * radix + v);
                if over {
                    let ghost pv = digits_value(prev, radix as nat);
                    assert(pv * radix >= pv) by (nonlinear_arith)
                        requires
                            radix >= 2,
                    ;
                } else {
                    assert(acc * (radix as u64) <= max * 36) by (nonlinear_arith)
                        requires
                            acc <= max,
                            radix <= 36,
                    ;
                    let next: u64 = acc * (radix as u64) + (v as u64);
                    if next > max {
                        over = true;
                    } else {
                        acc = next;
                    }
                }
                assert forall|j: int| 0 <= j < i + 1 implies #[trigger] digit_of(
                    next_prefix[j],
                    radix as nat,
                ) is Some by {
                    if j < i {
                        assert(next_prefix[j] == prev[j]);
                    }
                }
            },
        }
        i = i + 1;
    }
    assert(d@.take(d@.len() as int) =~= d@);
    if over {
        None
    } else {
        Some(acc as u32)
    }
}

} // verus!
