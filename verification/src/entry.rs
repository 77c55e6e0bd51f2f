//! One directory entry under consideration, and the file-name grammar.
//!
//! A name splits into `base`, an optional trailing digit run, and an optional
//! extension.  The split point is the least index `i` such that the byte
//! before `i` is not a digit and the rest of the name is a (possibly empty)
//! digit run followed by either nothing or a dot-led extension of at least
//! two bytes.  A name without such a split (empty, or all digits) is all base.

use vstd::prelude::*;

verus! {

/// An ASCII decimal digit.
pub open spec fn is_digit(b: u8) -> bool {
    48 <= b <= 57
}

/// A separator byte: underscore, hyphen or space.
pub open spec fn is_sep(b: u8) -> bool {
    b == 95 || b == 45 || b == 32
}

/// Index of the first non-digit byte at or after `i`, or `s.len()` if the
/// digits run to the end.
pub open spec fn digit_run_end(s: Seq<u8>, i: int) -> int
    decreases s.len() - i,
{
    if i < 0 || i >= s.len() {
        s.len() as int
    } else if !is_digit(s[i]) {
        i
    } else {
        digit_run_end(s, i + 1)
    }
}

/// After a base ending at `i`: an optional digit run, then either the end of
/// the name or an extension of at least two bytes starting with a dot.
pub open spec fn tail_ok(s: Seq<u8>, i: int) -> bool {
    let e = digit_run_end(s, i);
    e == s.len() || (s[e] == 46 && e + 2 <= s.len())
}

/// The name can split at `i`: a non-empty base whose last byte is not a
/// digit, followed by an acceptable tail.
pub open spec fn split_ok(s: Seq<u8>, i: int) -> bool {
    1 <= i <= s.len() && !is_digit(s[i - 1]) && tail_ok(s, i)
}

pub open spec fn first_split_from(s: Seq<u8>, i: int) -> Option<int>
    decreases s.len() - i + 1,
{
    if i < 1 || i > s.len() {
        None
    } else if split_ok(s, i) {
        Some(i)
    } else {
        first_split_from(s, i + 1)
    }
}

/// The split the parser chooses: the least valid split position.
pub open spec fn first_split(s: Seq<u8>) -> Option<int> {
    first_split_from(s, 1)
}

/// Value of a string of decimal digits, most significant first.
pub open spec fn digits_val(s: Seq<u8>) -> nat
    decreases s.len(),
{
    if s.len() == 0 {
        0
    } else {
        digits_val(s.drop_last()) * 10 + (s.last() - 48) as nat
    }
}

/// The number the parser reports for a split at `i`: the digit run's value,
/// if the run is non-empty and the value fits the machine word.
pub open spec fn parsed_num(s: Seq<u8>, i: int) -> Option<usize> {
    let e = digit_run_end(s, i);
    if i < e && digits_val(s.subrange(i, e)) <= usize::MAX {
        Some(digits_val(s.subrange(i, e)) as usize)
    } else {
        None
    }
}

/// The extension the parser reports for a split at `i`.
pub open spec fn parsed_ext(s: Seq<u8>, i: int) -> Option<Seq<u8>> {
    let e = digit_run_end(s, i);
    if e < s.len() {
        Some(s.subrange(e, s.len() as int))
    } else {
        None
    }
}

/// Decimal digits of `n`, most significant first.
pub open spec fn dec_digits(n: nat) -> Seq<u8>
    decreases n,
{
    if n < 10 {
        seq![(48 + n) as u8]
    } else {
        dec_digits(n / 10).push((48 + n % 10) as u8)
    }
}

/// Decimal digits of `n` left-padded with zeros to width `w`; never truncated.
pub open spec fn padded(n: nat, w: nat) -> Seq<u8> {
    let d = dec_digits(n);
    if d.len() >= w {
        d
    } else {
        Seq::new((w - d.len()) as nat, |k: int| 48u8) + d
    }
}

/// Index just after the last slash of a path, or 0 if it has none.
pub open spec fn name_start(p: Seq<u8>) -> int
    decreases p.len(),
{
    if p.len() == 0 {
        0
    } else if p.last() == 47 {
        p.len() as int
    } else {
        name_start(p.drop_last())
    }
}

/// The file-name component of a path: the bytes after its last slash.
pub open spec fn file_name_of(p: Seq<u8>) -> Seq<u8> {
    p.subrange(name_start(p), p.len() as int)
}

/// The directory part of a path: everything up to and including its last
/// slash, empty if it has none.
pub open spec fn dir_of(p: Seq<u8>) -> Seq<u8> {
    p.subrange(0, name_start(p))
}

/// One file being considered for renaming.
pub struct Entry {
    /// The full path at the start of the operation.
    pub p: Vec<u8>,
    /// The part of the file name preceding the trailing digit run.
    pub b: Vec<u8>,
    /// The extension, beginning with a dot, if the name has one.
    pub a: Option<Vec<u8>>,
    /// The value of the trailing digit run, if the name has one.
    pub n: Option<usize>,
}

/// Mathematical image of an [`Entry`].
#[verifier::ext_equal]
pub ghost struct EntryV {
    pub p: Seq<u8>,
    pub b: Seq<u8>,
    pub a: Option<Seq<u8>>,
    pub n: Option<usize>,
}

impl View for Entry {
    type V = EntryV;

    open spec fn view(&self) -> EntryV {
        EntryV {
            p: self.p@,
            b: self.b@,
            a: match self.a {
                Some(v) => Some(v@),
                None => None,
            },
            n: self.n,
        }
    }
}

/// The separator of an entry: the last byte of its base, when that byte is a
/// separator.
pub open spec fn sep_of(e: EntryV) -> Option<u8> {
    if e.b.len() > 0 && is_sep(e.b.last()) {
        Some(e.b.last())
    } else {
        None
    }
}

/// The group key of an entry: its base with one trailing separator removed.
pub open spec fn key_of(e: EntryV) -> Seq<u8> {
    if e.b.len() > 0 && is_sep(e.b.last()) {
        e.b.drop_last()
    } else {
        e.b
    }
}

/// The extension of an entry, or the empty sequence.
pub open spec fn ext_seq(e: EntryV) -> Seq<u8> {
    match e.a {
        Some(x) => x,
        None => Seq::empty(),
    }
}

/// The entry a path parses to: the path itself, and the decomposition of
/// its file-name component.
pub open spec fn entry_of(path: Seq<u8>) -> EntryV {
    let nm = file_name_of(path);
    match first_split(nm) {
        Some(i) => EntryV {
            p: path,
            b: nm.subrange(0, i),
            a: parsed_ext(nm, i),
            n: parsed_num(nm, i),
        },
        None => EntryV { p: path, b: nm, a: None, n: None },
    }
}

/// View of an optional byte string.
pub open spec fn opt_bytes_view(o: Option<Vec<u8>>) -> Option<Seq<u8>> {
    match o {
        Some(v) => Some(v@),
        None => None,
    }
}

proof fn lemma_digit_run_end(s: Seq<u8>, i: int)
    requires
        0 <= i <= s.len(),
    ensures
        i <= digit_run_end(s, i) <= s.len(),
        forall|k: int| i <= k < digit_run_end(s, i) ==> is_digit(s[k]),
        digit_run_end(s, i) < s.len() ==> !is_digit(s[digit_run_end(s, i)]),
    decreases s.len() - i,
{
    if i < s.len() && is_digit(s[i]) {
        lemma_digit_run_end(s, i + 1);
    }
}

pub(crate) fn copy_range(s: &Vec<u8>, a: usize, b: usize) -> (r: Vec<u8>)
    requires
        a <= b <= s.len(),
    ensures
        r@ == s@.subrange(a as int, b as int),
{
    let mut r: Vec<u8> = Vec::new();
    let mut k: usize = a;
    while k < b
        invariant
            a <= k <= b <= s.len(),
            r@ =~= s@.subrange(a as int, k as int),
        decreases b - k,
    {
        r.push(s[k]);
        assert(r@ =~= s@.subrange(a as int, k + 1));
        k += 1;
    }
    proof {
        assert(r@ =~= s@.subrange(a as int, b as int));
    }
    r
}

/// Appends a copy of `s` to `out`.
fn append_bytes(out: &mut Vec<u8>, s: &Vec<u8>)
    ensures
        final(out)@ == old(out)@ + s@,
{
    let mut k: usize = 0;
    while k < s.len()
        invariant
            k <= s.len(),
            out@ =~= old(out)@ + s@.subrange(0, k as int),
        decreases s.len() - k,
    {
        out.push(s[k]);
        assert(out@ =~= old(out)@ + s@.subrange(0, k + 1));
        k += 1;
    }
    proof {
        assert(s@.subrange(0, s@.len() as int) =~= s@);
    }
}

/// Appends the decimal digits of `n` to `out`.
fn push_digits(n: usize, out: &mut Vec<u8>)
    ensures
        final(out)@ == old(out)@ + dec_digits(n as nat),
    decreases n,
{
    if n < 10 {
        out.push(48 + n as u8);
        assert(out@ =~= old(out)@ + dec_digits(n as nat));
    } else {
        push_digits(n / 10, out);
        out.push(48 + (n % 10) as u8);
        assert(out@ =~= old(out)@ + dec_digits(n as nat));
    }
}

/// Appends the decimal digits of `n`, zero-padded to width `w`, to `out`.
fn push_padded(out: &mut Vec<u8>, n: usize, w: usize)
    ensures
        final(out)@ == old(out)@ + padded(n as nat, w as nat),
{
    let mut digs: Vec<u8> = Vec::new();
    push_digits(n, &mut digs);
    let mut z: usize = digs.len();
    while z < w
        invariant
            digs.len() <= z,
            z == digs.len() || z <= w,
            digs@ == dec_digits(n as nat),
            out@ =~= old(out)@ + Seq::new((z - digs.len()) as nat, |k: int| 48u8),
        decreases w - z,
    {
        out.push(48);
        assert(out@ =~= old(out)@ + Seq::new((z + 1 - digs.len()) as nat, |k: int| 48u8));
        z += 1;
    }
    append_bytes(out, &digs);
    proof {
        if digs@.len() >= w {
            assert(Seq::new(0nat, |k: int| 48u8) =~= Seq::<u8>::empty());
            assert(out@ =~= old(out)@ + padded(n as nat, w as nat));
        } else {
            assert(out@ =~= old(out)@ + padded(n as nat, w as nat));
        }
    }
}

impl Entry {
    /// Decomposes a file name into base, extension and number.
    ///
    /// The base is the shortest non-empty prefix that ends in a non-digit
    /// byte and is followed by an optional digit run and an optional dot-led
    /// extension reaching the end of the name.  A name with no such prefix —
    /// empty or consisting of digits only — is returned whole as the base.
    /// The digit run's value is reported only when it fits a `usize`.
    pub fn parse_file_name(name: &Vec<u8>) -> (r: (Vec<u8>, Option<Vec<u8>>, Option<usize>))
        ensures
            (match first_split(name@) {
                Some(i) => r.0@ == name@.subrange(0, i) && opt_bytes_view(r.1) == parsed_ext(
                    name@,
                    i,
                ) && r.2 == parsed_num(name@, i),
                None => r.0@ == name@ && r.1 is None && r.2 is None,
            }),
    {
        let n = name.len();
        let mut idx: usize = 0;
        while idx < n
            invariant
                idx <= n,
                n == name@.len(),
                first_split(name@) == first_split_from(name@, idx + 1),
            decreases n - idx,
        {
            let i = idx + 1;
            if !(48 <= name[i - 1] && name[i - 1] <= 57) {
                let e = digit_run_end_exec(name, i);
                proof {
                    lemma_digit_run_end(name@, i as int);
                }
                let ok: bool = if e == n {
                    true
                } else {
                    name[e] == 46 && n - e >= 2
                };
                if ok {
                    assert(split_ok(name@, i as int));
                    assert(first_split_from(name@, i as int) == Some(i as int));
                    let base = copy_range(name, 0, i);
                    let ext = if e < n {
                        Some(copy_range(name, e, n))
                    } else {
                        None
                    };
                    let num = if e > i {
                        parse_digits(name, i, e)
                    } else {
                        None
                    };
                    return (base, ext, num);
                }
            }
            proof {
                assert(!split_ok(name@, i as int));
                assert(first_split_from(name@, i as int) == first_split_from(name@, i + 1));
            }
            idx += 1;
        }
        assert(first_split(name@) is None);
        (copy_range(name, 0, n), None, None)
    }

    /// Builds the entry for one path by decomposing its file-name component.
    pub fn from_path(p: Vec<u8>) -> (e: Entry)
        ensures
            e@ == entry_of(p@),
    {
        let k = name_start_exec(&p);
        let name = copy_range(&p, k, p.len());
        let (b, a, n) = Self::parse_file_name(&name);
        let e = Entry { p, b, a, n };
        proof {
            assert(name@ == file_name_of(e.p@));
        }
        e
    }

    /// The parsed number, if the name had a trailing digit run.
    pub fn num(&self) -> (r: Option<usize>)
        ensures
            r == self@.n,
    {
        self.n
    }

    /// The full path the entry was built from.
    pub fn old_path(&self) -> (r: &Vec<u8>)
        ensures
            r@ == self@.p,
    {
        &self.p
    }

    /// The file-name component of the entry's path.
    pub fn file_name(&self) -> (r: Vec<u8>)
        ensures
            r@ == file_name_of(self@.p),
    {
        let k = name_start_exec(&self.p);
        copy_range(&self.p, k, self.p.len())
    }

    /// The base with one trailing separator removed: the entry's group key.
    pub fn file_name_before_sep(&self) -> (r: Vec<u8>)
        ensures
            r@ == key_of(self@),
    {
        let len = self.b.len();
        if len > 0 && (self.b[len - 1] == 95 || self.b[len - 1] == 45 || self.b[len - 1] == 32) {
            let r = copy_range(&self.b, 0, len - 1);
            proof {
                assert(self.b@.drop_last() =~= self.b@.subrange(0, len - 1));
            }
            r
        } else {
            let r = copy_range(&self.b, 0, len);
            proof {
                assert(self.b@ =~= self.b@.subrange(0, len as int));
            }
            r
        }
    }

    /// The trailing separator of the base, if it has one.
    pub fn file_name_sep(&self) -> (r: Option<u8>)
        ensures
            r == sep_of(self@),
    {
        let len = self.b.len();
        if len > 0 && (self.b[len - 1] == 95 || self.b[len - 1] == 45 || self.b[len - 1] == 32) {
            Some(self.b[len - 1])
        } else {
            None
        }
    }

    /// The path the entry is to be renamed to, if any.
    ///
    /// A numbered entry is renamed to its base, its number (shifted up by one
    /// when `shift` is set) zero-padded to width `pad`, and its extension.
    /// An unnumbered entry is renamed only when `shift` is set and the group
    /// supplied a separator `sep`; it then takes number 1.  The directory
    /// part of the path is kept.
    pub fn new_path(&self, shift: bool, sep: Option<u8>, pad: usize) -> (r: Option<Vec<u8>>)
        requires
            shift && self@.n is Some ==> self@.n->0 < usize::MAX,
        ensures
            (self@.n matches Some(m) ==> r matches Some(v) && v@ == dir_of(self@.p) + self@.b
                + padded((m + if shift { 1int } else { 0int }) as nat, pad as nat) + ext_seq(
                self@,
            )),
            (self@.n is None && shift ==> (sep matches Some(c) ==> r matches Some(v) && v@
                == dir_of(self@.p) + self@.b + seq![c] + padded(1, pad as nat) + ext_seq(self@))),
            (self@.n is None && (sep is None || !shift) ==> r is None),
    {
        if self.n.is_none() && (sep.is_none() || !shift) {
            return None;
        }
        let k = name_start_exec(&self.p);
        let mut out = copy_range(&self.p, 0, k);
        append_bytes(&mut out, &self.b);
        match self.n {
            Some(m) => {
                let shifted = if shift {
                    m + 1
                } else {
                    m
                };
                push_padded(&mut out, shifted, pad);
            },
            None => {
                match sep {
                    Some(c) => {
                        out.push(c);
                        push_padded(&mut out, 1, pad);
                    },
                    None => {
                    },
                }
            },
        }
        match &self.a {
            Some(x) => {
                append_bytes(&mut out, x);
            },
            None => {
                proof {
                    assert(out@ + ext_seq(self@) =~= out@);
                }
            },
        }
        Some(out)
    }
}


proof fn lemma_dec_digits_props(n: nat)
    ensures
        dec_digits(n).len() >= 1,
        forall|k: int| 0 <= k < dec_digits(n).len() ==> is_digit(#[trigger] dec_digits(n)[k]),
        digits_val(dec_digits(n)) == n,
    decreases n,
{
    if n < 10 {
        let d = dec_digits(n);
        assert(d == seq![(48 + n) as u8]);
        assert(d.len() == 1);
        assert(d.drop_last() =~= Seq::<u8>::empty());
        assert(d.last() == (48 + n) as u8);
        assert(digits_val(d.drop_last()) == 0);
        assert(digits_val(d) == 0 * 10 + ((48 + n) as u8 - 48) as nat);
    } else {
        lemma_dec_digits_props(n / 10);
        let d = dec_digits(n);
        assert(d.drop_last() =~= dec_digits(n / 10));
        assert(d.last() == (48 + n % 10) as u8);
        assert(digits_val(d) == (n / 10) * 10 + n % 10);
        assert((n / 10) * 10 + n % 10 == n) by (nonlinear_arith);
    }
}

proof fn lemma_digits_val_zero_prefix(z: nat, d: Seq<u8>)
    ensures
        digits_val(Seq::new(z, |k: int| 48u8) + d) == digits_val(d),
    decreases d.len(),
{
    let zs = Seq::new(z, |k: int| 48u8);
    if d.len() == 0 {
        assert(zs + d =~= zs);
        lemma_digits_val_zeros(z);
    } else {
        lemma_digits_val_zero_prefix(z, d.drop_last());
        assert((zs + d).drop_last() =~= zs + d.drop_last());
        assert((zs + d).last() == d.last());
    }
}

proof fn lemma_digits_val_zeros(z: nat)
    ensures
        digits_val(Seq::new(z, |k: int| 48u8)) == 0,
    decreases z,
{
    let zs = Seq::new(z, |k: int| 48u8);
    if z > 0 {
        lemma_digits_val_zeros((z - 1) as nat);
        assert(zs.drop_last() =~= Seq::new((z - 1) as nat, |k: int| 48u8));
        assert(zs.last() == 48u8);
    }
}

/// The padded rendering of `n` is all digits, at least as wide as asked,
/// and still reads back as `n`.
pub proof fn lemma_padded_props(n: nat, w: nat)
    ensures
        padded(n, w).len() >= 1,
        padded(n, w).len() >= w,
        padded(n, w).len() == if dec_digits(n).len() >= w {
            dec_digits(n).len()
        } else {
            w
        },
        forall|k: int| 0 <= k < padded(n, w).len() ==> is_digit(#[trigger] padded(n, w)[k]),
        digits_val(padded(n, w)) == n,
{
    lemma_dec_digits_props(n);
    if dec_digits(n).len() < w {
        lemma_digits_val_zero_prefix((w - dec_digits(n).len()) as nat, dec_digits(n));
    }
}

/// A longer digit run has at least as many digits.
pub proof fn lemma_dec_digits_mono(a: nat, b: nat)
    requires
        a <= b,
    ensures
        dec_digits(a).len() <= dec_digits(b).len(),
    decreases b,
{
    if b >= 10 && a >= 10 {
        assert(a / 10 <= b / 10) by (nonlinear_arith)
            requires
                a <= b,
        ;
        assert(b / 10 < b) by (nonlinear_arith)
            requires
                b >= 10,
        ;
        lemma_dec_digits_mono(a / 10, b / 10);
    } else if b >= 10 {
        lemma_dec_digits_props(b);
        assert(b / 10 < b) by (nonlinear_arith)
            requires
                b >= 10,
        ;
        lemma_dec_digits_props(b / 10);
    }
}

proof fn lemma_digit_run_end_exact(s: Seq<u8>, i: int, j: int)
    requires
        0 <= i <= j <= s.len(),
        forall|k: int| i <= k < j ==> is_digit(s[k]),
        j == s.len() || !is_digit(s[j]),
    ensures
        digit_run_end(s, i) == j,
    decreases j - i,
{
    if i < j {
        lemma_digit_run_end_exact(s, i + 1, j);
    }
}

proof fn lemma_digit_run_end_stops(s: Seq<u8>, i: int, m: int)
    requires
        0 <= i <= m < s.len(),
        !is_digit(s[m]),
    ensures
        digit_run_end(s, i) <= m,
    decreases m - i,
{
    if i < m && is_digit(s[i]) {
        lemma_digit_run_end_stops(s, i + 1, m);
    }
}

proof fn lemma_first_split_found(s: Seq<u8>, i: int, t: int)
    requires
        1 <= i <= t,
        split_ok(s, t),
        forall|j: int| i <= j < t ==> !split_ok(s, j),
    ensures
        first_split_from(s, i) == Some(t),
    decreases t - i,
{
    if i < t {
        lemma_first_split_found(s, i + 1, t);
    }
}

/// The name assembled from a base, a zero-padded number and an optional
/// extension.
pub open spec fn assembled(b: Seq<u8>, n: usize, w: nat, ext: Option<Seq<u8>>) -> Seq<u8> {
    b + padded(n as nat, w) + (match ext {
        Some(x) => x,
        None => Seq::empty(),
    })
}

/// Law: a name assembled from a base, a zero-padded number and an optional
/// extension parses back to exactly those parts, whatever the padding width.
///
/// This holds for every base that is non-empty, ends in a non-digit and has
/// no dot, and every extension that starts with a dot and has at least two
/// bytes.  A dot inside the base breaks it: the parser then takes the first
/// dot for the extension.
pub proof fn lemma_parse_round_trip(b: Seq<u8>, n: usize, w: nat, ext: Option<Seq<u8>>)
    requires
        b.len() > 0,
        !is_digit(b.last()),
        forall|k: int| 0 <= k < b.len() ==> b[k] != 46,
        (ext matches Some(x) ==> x.len() >= 2 && x[0] == 46),
        w >= dec_digits(n as nat).len(),
    ensures
        first_split(assembled(b, n, w, ext)) == Some(b.len() as int),
        assembled(b, n, w, ext).subrange(0, b.len() as int) == b,
        parsed_num(assembled(b, n, w, ext), b.len() as int) == Some(n),
        parsed_ext(assembled(b, n, w, ext), b.len() as int) == ext,
{
    let p = padded(n as nat, w);
    let e = match ext {
        Some(x) => x,
        None => Seq::<u8>::empty(),
    };
    let s = assembled(b, n, w, ext);
    let bl = b.len() as int;
    let j = bl + p.len() as int;
    lemma_padded_props(n as nat, w);
    assert(s.len() == b.len() + p.len() + e.len());
    assert(forall|k: int| 0 <= k < bl ==> s[k] == b[k]);
    assert(forall|k: int| bl <= k < j ==> s[k] == p[k - bl]);
    assert(forall|k: int| j <= k < s.len() ==> s[k] == e[k - j]);
    lemma_digit_run_end_exact(s, bl, j);
    assert(tail_ok(s, bl));
    assert(split_ok(s, bl));
    assert forall|i: int| 1 <= i < bl implies !split_ok(s, i) by {
        if !is_digit(s[i - 1]) {
            lemma_digit_run_end_stops(s, i, bl - 1);
            let d = digit_run_end(s, i);
            lemma_digit_run_end(s, i);
            assert(d < s.len());
            assert(s[d] == b[d]);
            assert(s[d] != 46);
            assert(!tail_ok(s, i));
        }
    }
    lemma_first_split_found(s, 1, bl);
    assert(s.subrange(0, bl) =~= b);
    assert(s.subrange(bl, j) =~= p);
    assert(digits_val(s.subrange(bl, j)) == n);
    assert(parsed_num(s, bl) == Some(n));
    if ext is Some {
        assert(s.subrange(j, s.len() as int) =~= e);
        assert(parsed_ext(s, bl) == Some(e));
    } else {
        assert(j == s.len());
        assert(parsed_ext(s, bl) is None);
    }
}

fn digit_run_end_exec(s: &Vec<u8>, i: usize) -> (e: usize)
    requires
        i <= s.len(),
    ensures
        e as int == digit_run_end(s@, i as int),
{
    let mut j = i;
    while j < s.len() && 48 <= s[j] && s[j] <= 57
        invariant
            i <= j <= s.len(),
            digit_run_end(s@, i as int) == digit_run_end(s@, j as int),
        decreases s.len() - j,
    {
        j += 1;
    }
    j
}

fn name_start_exec(p: &Vec<u8>) -> (k: usize)
    ensures
        k as int == name_start(p@),
        k <= p.len(),
{
    let mut k = p.len();
    proof {
        assert(p@.subrange(0, p@.len() as int) =~= p@);
    }
    while k > 0 && p[k - 1] != 47
        invariant
            k <= p.len(),
            name_start(p@) == name_start(p@.subrange(0, k as int)),
        decreases k,
    {
        proof {
            assert(p@.subrange(0, k as int).drop_last() =~= p@.subrange(0, k - 1));
        }
        k -= 1;
    }
    proof {
        if k > 0 {
            assert(p@.subrange(0, k as int).last() == p@[k - 1]);
        }
    }
    k
}

/// Value of the digit run `s[i..e]`, when it fits a `usize`.
fn parse_digits(s: &Vec<u8>, i: usize, e: usize) -> (r: Option<usize>)
    requires
        i <= e <= s.len(),
        forall|k: int| i <= k < e ==> is_digit(s@[k]),
    ensures
        (digits_val(s@.subrange(i as int, e as int)) <= usize::MAX && i < e ==> r == Some(
            digits_val(s@.subrange(i as int, e as int)) as usize,
        )),
        (digits_val(s@.subrange(i as int, e as int)) > usize::MAX ==> r is None),
        (i == e ==> r == Some(0usize)),
{
    let mut val: usize = 0;
    let mut over: bool = false;
    let mut k = i;
    while k < e
        invariant
            i <= k <= e <= s.len(),
            forall|j: int| i <= j < e ==> is_digit(s@[j]),
            !over ==> val == digits_val(s@.subrange(i as int, k as int)),
            over ==> digits_val(s@.subrange(i as int, k as int)) > usize::MAX,
        decreases e - k,
    {
        let d = (s[k] - 48) as usize;
        proof {
            assert(s@.subrange(i as int, k + 1).drop_last() =~= s@.subrange(i as int, k as int));
            assert(s@.subrange(i as int, k + 1).last() == s@[k as int]);
        }
        if !over {
            if val <= (usize::MAX - d) / 10 {
                proof {
                    assert(val * 10 + d <= usize::MAX) by (nonlinear_arith)
                        requires
                            val <= (usize::MAX - d) / 10,
                            d <= usize::MAX,
                    ;
                }
                val = val * 10 + d;
            } else {
                proof {
                    assert(val * 10 + d > usize::MAX) by (nonlinear_arith)
                        requires
                            val > (usize::MAX - d) / 10,
                            d <= 9,
                    ;
                }
                over = true;
            }
        } else {
            proof {
                assert(digits_val(s@.subrange(i as int, k + 1)) > usize::MAX) by (nonlinear_arith)
                    requires
                        digits_val(s@.subrange(i as int, k + 1)) == digits_val(
                            s@.subrange(i as int, k as int),
                        ) * 10 + (s@[k as int] - 48) as nat,
                        digits_val(s@.subrange(i as int, k as int)) > usize::MAX,
                ;
            }
        }
        k += 1;
    }
    if over {
        None
    } else {
        Some(val)
    }
}

} // verus!
