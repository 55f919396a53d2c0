//! Paths as byte strings: order, names, and sequence-numbered file names.

use vstd::prelude::*;

verus! {

/// The separator sorts before every other byte, so that paths sort
/// component by component.
pub open spec fn rank(b: u8) -> int {
    if b == 0x2F {
        0
    } else {
        b + 1
    }
}

/// Whether `a` sorts strictly before `b`.
pub open spec fn sorts_before(a: Seq<u8>, b: Seq<u8>) -> bool
    decreases a.len(),
{
    if b.len() == 0 {
        false
    } else if a.len() == 0 {
        true
    } else if a[0] != b[0] {
        rank(a[0]) < rank(b[0])
    } else {
        sorts_before(a.skip(1), b.skip(1))
    }
}

pub proof fn lemma_sorts_irreflexive(a: Seq<u8>)
    ensures
        !sorts_before(a, a),
    decreases a.len(),
{
    if a.len() > 0 {
        lemma_sorts_irreflexive(a.skip(1));
    }
}

pub proof fn lemma_sorts_transitive(a: Seq<u8>, b: Seq<u8>, c: Seq<u8>)
    requires
        sorts_before(a, b),
        sorts_before(b, c),
    ensures
        sorts_before(a, c),
    decreases a.len(),
{
    if a.len() > 0 && a[0] == b[0] && b[0] == c[0] {
        lemma_sorts_transitive(a.skip(1), b.skip(1), c.skip(1));
    }
}

pub proof fn lemma_sorts_total(a: Seq<u8>, b: Seq<u8>)
    ensures
        sorts_before(a, b) || a == b || sorts_before(b, a),
    decreases a.len(),
{
    if a.len() == 0 && b.len() == 0 {
        assert(a =~= b);
    } else if a.len() > 0 && b.len() > 0 && a[0] == b[0] {
        lemma_sorts_total(a.skip(1), b.skip(1));
        if a.skip(1) == b.skip(1) {
            assert(a =~= seq![a[0]] + a.skip(1));
            assert(b =~= seq![b[0]] + b.skip(1));
        }
    }
}

/// A common prefix does not change the order.
pub proof fn lemma_sorts_prefix(p: Seq<u8>, a: Seq<u8>, b: Seq<u8>)
    ensures
        sorts_before(p + a, p + b) == sorts_before(a, b),
    decreases p.len(),
{
    if p.len() == 0 {
        assert(p + a =~= a);
        assert(p + b =~= b);
    } else {
        assert((p + a).skip(1) =~= p.skip(1) + a);
        assert((p + b).skip(1) =~= p.skip(1) + b);
        lemma_sorts_prefix(p.skip(1), a, b);
        if (p + b).len() > 0 && (p + a).len() > 0 {
            assert((p + a)[0] == p[0]);
            assert((p + b)[0] == p[0]);
        }
    }
}

/// Among strings of one length, the order is decided before what follows.
proof fn lemma_sorts_suffix(a: Seq<u8>, b: Seq<u8>, x: Seq<u8>, y: Seq<u8>)
    requires
        a.len() == b.len(),
        sorts_before(a, b),
    ensures
        sorts_before(a + x, b + y),
    decreases a.len(),
{
    if a[0] == b[0] {
        lemma_sorts_suffix(a.skip(1), b.skip(1), x, y);
        assert((a + x).skip(1) =~= a.skip(1) + x);
        assert((b + y).skip(1) =~= b.skip(1) + y);
    } else {
        assert((a + x)[0] == a[0]);
        assert((b + y)[0] == b[0]);
    }
}

/// Whether `a` sorts strictly before `b`.
pub fn is_before(a: &[u8], b: &[u8]) -> (r: bool)
    ensures
        r == sorts_before(a@, b@),
{
    let mut i: usize = 0;
    assert(a@.skip(0) =~= a@);
    assert(b@.skip(0) =~= b@);
    while i < a.len() && i < b.len() && a[i] == b[i]
        invariant
            i <= a@.len(),
            i <= b@.len(),
            sorts_before(a@, b@) == sorts_before(a@.skip(i as int), b@.skip(i as int)),
        decreases a@.len() - i,
    {
        assert(a@.skip(i as int).skip(1) =~= a@.skip(i + 1));
        assert(b@.skip(i as int).skip(1) =~= b@.skip(i + 1));
        i = i + 1;
    }
    if i >= b.len() {
        return false;
    }
    if i >= a.len() {
        return true;
    }
    if a[i] == 0x2F {
        true
    } else if b[i] == 0x2F {
        false
    } else {
        a[i] < b[i]
    }
}

/// Whether two byte strings are equal.
pub fn same_bytes(a: &[u8], b: &[u8]) -> (r: bool)
    ensures
        r == (a@ == b@),
{
    if a.len() != b.len() {
        return false;
    }
    let mut i: usize = 0;
    while i < a.len()
        invariant
            i <= a@.len(),
            a@.len() == b@.len(),
            forall|k: int| 0 <= k < i ==> a@[k] == b@[k],
        decreases a@.len() - i,
    {
        if a[i] != b[i] {
            assert(a@[i as int] != b@[i as int]);
            return false;
        }
        i = i + 1;
    }
    assert(a@ =~= b@);
    true
}

/// A copy of a byte string.
pub fn copy_bytes(a: &[u8]) -> (r: Vec<u8>)
    ensures
        r@ == a@,
{
    let mut r: Vec<u8> = Vec::with_capacity(a.len());
    r.extend_from_slice(a);
    assert(r@ =~= a@);
    r
}

/// `name` inside `dir`.
pub open spec fn join(dir: Seq<u8>, name: Seq<u8>) -> Seq<u8> {
    dir + seq![0x2Fu8] + name
}

/// Whether `path` names something directly inside `dir`.
pub open spec fn is_child(path: Seq<u8>, dir: Seq<u8>) -> bool {
    &&& path.len() > dir.len() + 1
    &&& path.take(dir.len() as int) == dir
    &&& path[dir.len() as int] == 0x2F
    &&& forall|i: int| dir.len() < i < path.len() ==> #[trigger] path[i] != 0x2F
}

/// Whether the last component of `path` is a nonempty stem, a dot, and `ext`.
pub open spec fn has_extension(path: Seq<u8>, ext: Seq<u8>) -> bool {
    let cut = path.len() - ext.len() - 1;
    &&& cut >= 1
    &&& path[cut - 1] != 0x2F
    &&& path[cut] == 0x2E
    &&& path.skip(cut + 1) == ext
}

/// `seg`, the extension of journal segments.
pub open spec fn seg_ext() -> Seq<u8> {
    seq![0x73u8, 0x65u8, 0x67u8]
}

/// `snap`, the extension of snapshots.
pub open spec fn snap_ext() -> Seq<u8> {
    seq![0x73u8, 0x6Eu8, 0x61u8, 0x70u8]
}

/// `seg`, the extension of journal segments.
pub fn seg_extension() -> (r: Vec<u8>)
    ensures
        r@ == seg_ext(),
{
    vec![0x73u8, 0x65u8, 0x67u8]
}

/// `snap`, the extension of snapshots.
pub fn snap_extension() -> (r: Vec<u8>)
    ensures
        r@ == snap_ext(),
{
    vec![0x73u8, 0x6Eu8, 0x61u8, 0x70u8]
}

/// See [`is_child`].
pub fn child_of(path: &[u8], dir: &[u8]) -> (r: bool)
    ensures
        r == is_child(path@, dir@),
{
    if path.len() < 2 || path.len() - 2 < dir.len() {
        return false;
    }
    let head = vstd::slice::slice_subrange(path, 0, dir.len());
    assert(head@ =~= path@.take(dir@.len() as int));
    if !same_bytes(head, dir) {
        return false;
    }
    if path[dir.len()] != 0x2F {
        return false;
    }
    let mut i: usize = dir.len() + 1;
    while i < path.len()
        invariant
            dir@.len() < i <= path@.len(),
            forall|k: int| dir@.len() < k < i ==> #[trigger] path@[k] != 0x2F,
        decreases path@.len() - i,
    {
        if path[i] == 0x2F {
            assert(path@[i as int] == 0x2F);
            return false;
        }
        i = i + 1;
    }
    true
}

/// See [`has_extension`].
pub fn with_extension(path: &[u8], ext: &[u8]) -> (r: bool)
    ensures
        r == has_extension(path@, ext@),
{
    if path.len() < 2 || path.len() - 2 < ext.len() {
        return false;
    }
    let cut: usize = path.len() - ext.len() - 1;
    let tail = vstd::slice::slice_subrange(path, cut + 1, path.len());
    assert(tail@ =~= path@.skip(cut + 1));
    path[cut - 1] != 0x2F && path[cut] == 0x2E && same_bytes(tail, ext)
}

/// The `width` low-order decimal digits of `n`, most significant first, as text.
pub open spec fn padded(n: nat, width: nat) -> Seq<u8>
    decreases width,
{
    if width == 0 {
        Seq::empty()
    } else {
        padded(n / 10, (width - 1) as nat).push((0x30 + n % 10) as u8)
    }
}

/// `10` to the `n`-th power.
pub open spec fn pow10(n: nat) -> nat
    decreases n,
{
    if n == 0 {
        1
    } else {
        10 * pow10((n - 1) as nat)
    }
}

pub proof fn lemma_padded_len(n: nat, width: nat)
    ensures
        padded(n, width).len() == width,
        forall|i: int| 0 <= i < width ==> 0x30 <= #[trigger] padded(n, width)[i] <= 0x39,
    decreases width,
{
    if width > 0 {
        lemma_padded_len(n / 10, (width - 1) as nat);
    }
}

/// Zero-padded numbers sort as numbers do.
pub proof fn lemma_padded_sorts(a: nat, b: nat, width: nat)
    requires
        a < b < pow10(width),
    ensures
        sorts_before(padded(a, width), padded(b, width)),
    decreases width,
{
    if width > 0 {
        let w = (width - 1) as nat;
        let pa = padded(a / 10, w);
        let pb = padded(b / 10, w);
        lemma_padded_len(a / 10, w);
        lemma_padded_len(b / 10, w);
        let da = (0x30 + a % 10) as u8;
        let db = (0x30 + b % 10) as u8;
        assert(pa.push(da) =~= pa + seq![da]);
        assert(pb.push(db) =~= pb + seq![db]);
        if a / 10 < b / 10 {
            lemma_padded_sorts(a / 10, b / 10, w);
            lemma_sorts_suffix(pa, pb, seq![da], seq![db]);
        } else {
            assert(a / 10 == b / 10);
            assert(a % 10 < b % 10);
            lemma_sorts_prefix(pa, seq![da], seq![db]);
            assert(sorts_before(seq![da], seq![db]));
        }
    }
}

pub proof fn lemma_pow10_20()
    ensures
        pow10(20) == 100_000_000_000_000_000_000,
        u64::MAX < pow10(20),
{
    reveal_with_fuel(pow10, 21);
}

/// The path of the file that `dir` holds for sequence number `n`.
pub open spec fn numbered(dir: Seq<u8>, n: u64, ext: Seq<u8>) -> Seq<u8> {
    join(dir, padded(n as nat, 20) + seq![0x2Eu8] + ext)
}

/// The path of the file that `dir` holds for sequence number `n`.
pub fn numbered_path(dir: &[u8], n: u64, ext: &[u8]) -> (r: Vec<u8>)
    ensures
        r@ == numbered(dir@, n, ext@),
{
    let mut r = copy_bytes(dir);
    r.push(0x2F);
    let ghost base = r@;
    let mut digits: Vec<u8> = Vec::with_capacity(20);
    let mut i: usize = 0;
    let mut rest: u64 = n;
    assert(digits@.reverse() =~= Seq::<u8>::empty());
    while i < 20
        invariant
            i <= 20,
            digits@.len() == i,
            padded(n as nat, 20) == padded(rest as nat, (20 - i) as nat) + digits@.reverse(),
        decreases 20 - i,
    {
        let ghost d0 = digits@;
        let ghost r0 = rest as nat;
        let digit: u8 = (0x30 + rest % 10) as u8;
        digits.push(digit);
        proof {
            let left = padded(r0 / 10, (20 - i - 1) as nat);
            assert(padded(r0, (20 - i) as nat) == left.push(digit));
            assert(digits@.reverse() =~= seq![digit] + d0.reverse());
            assert(left.push(digit) + d0.reverse() =~= left + digits@.reverse());
        }
        rest = rest / 10;
        i = i + 1;
    }
    assert(padded(rest as nat, 0) + digits@.reverse() =~= digits@.reverse());
    let mut k: usize = 20;
    while k > 0
        invariant
            k <= 20,
            digits@.len() == 20,
            r@ == base + digits@.reverse().take(20 - k),
        decreases k,
    {
        k = k - 1;
        r.push(digits[k]);
        assert(r@ =~= base + digits@.reverse().take(20 - k));
    }
    assert(digits@.reverse().take(20) =~= digits@.reverse());
    r.push(0x2E);
    r.extend_from_slice(ext);
    assert(r@ =~= numbered(dir@, n, ext@));
    r
}

/// The number that decimal digits, most significant first, stand for.
pub open spec fn digits_value(s: Seq<u8>) -> nat
    decreases s.len(),
{
    if s.len() == 0 {
        0
    } else {
        10 * digits_value(s.drop_last()) + (s.last() - 0x30) as nat
    }
}

pub open spec fn all_digits(s: Seq<u8>) -> bool {
    forall|i: int| 0 <= i < s.len() ==> 0x30 <= #[trigger] s[i] <= 0x39
}

/// The number that a file stem names, as an unsigned decimal with an
/// optional plus sign.
pub open spec fn stem_number(stem: Seq<u8>) -> Option<u64> {
    let digits = if stem.len() > 0 && stem[0] == 0x2B {
        stem.skip(1)
    } else {
        stem
    };
    if digits.len() > 0 && all_digits(digits) && digits_value(digits) <= u64::MAX {
        Some(digits_value(digits) as u64)
    } else {
        None
    }
}

/// The stem of a path inside `dir` that ends in a dot and `ext_len` bytes.
pub open spec fn stem(path: Seq<u8>, dir_len: nat, ext_len: nat) -> Seq<u8> {
    path.subrange((dir_len + 1) as int, path.len() - ext_len - 1)
}

pub proof fn lemma_padded_value(n: nat, width: nat)
    requires
        n < pow10(width),
    ensures
        digits_value(padded(n, width)) == n,
    decreases width,
{
    if width > 0 {
        lemma_padded_value(n / 10, (width - 1) as nat);
        let p = padded(n, width);
        assert(p.drop_last() =~= padded(n / 10, (width - 1) as nat));
        assert(p.last() == (0x30 + n % 10) as u8);
    }
}

/// A numbered file lies directly in its directory, has its extension, and
/// its stem names its number.
pub proof fn lemma_numbered(dir: Seq<u8>, n: u64, ext: Seq<u8>)
    requires
        forall|i: int| 0 <= i < ext.len() ==> ext[i] != 0x2F,
    ensures
        is_child(numbered(dir, n, ext), dir),
        has_extension(numbered(dir, n, ext), ext),
        stem_number(stem(numbered(dir, n, ext), dir.len(), ext.len())) == Some(n),
{
    let p = numbered(dir, n, ext);
    let d = padded(n as nat, 20);
    lemma_padded_len(n as nat, 20);
    lemma_pow10_20();
    lemma_padded_value(n as nat, 20);
    assert(p.take(dir.len() as int) =~= dir);
    let cut = p.len() - ext.len() - 1;
    assert(p.skip(cut + 1) =~= ext);
    assert(p[cut - 1] == d[19]);
    assert(stem(p, dir.len(), ext.len()) =~= d);
    assert forall|i: int| dir.len() < i < p.len() implies #[trigger] p[i] != 0x2F by {
        if i <= dir.len() + 20 {
            assert(p[i] == d[i - dir.len() - 1]);
        } else if i > dir.len() + 21 {
            assert(p[i] == ext[i - dir.len() - 22]);
        }
    }
    assert(d[0] != 0x2B);
}

/// Numbered files sort by number.
pub proof fn lemma_numbered_sorts(dir: Seq<u8>, a: u64, b: u64, ext: Seq<u8>)
    requires
        a < b,
    ensures
        sorts_before(numbered(dir, a, ext), numbered(dir, b, ext)),
        numbered(dir, a, ext) != numbered(dir, b, ext),
{
    lemma_pow10_20();
    lemma_padded_sorts(a as nat, b as nat, 20);
    lemma_padded_len(a as nat, 20);
    lemma_padded_len(b as nat, 20);
    let pa = padded(a as nat, 20);
    let pb = padded(b as nat, 20);
    let tail = seq![0x2Eu8] + ext;
    lemma_sorts_suffix(pa, pb, tail, tail);
    let front = dir + seq![0x2Fu8];
    lemma_sorts_prefix(front, pa + tail, pb + tail);
    assert(numbered(dir, a, ext) =~= front + (pa + tail));
    assert(numbered(dir, b, ext) =~= front + (pb + tail));
    lemma_sorts_irreflexive(numbered(dir, a, ext));
}

/// See [`stem_number`].
pub fn parse_stem(text: &[u8]) -> (r: Option<u64>)
    ensures
        r == stem_number(text@),
{
    let start: usize = if text.len() > 0 && text[0] == 0x2B {
        1
    } else {
        0
    };
    let ghost digits = if text@.len() > 0 && text@[0] == 0x2B {
        text@.skip(1)
    } else {
        text@
    };
    assert(digits =~= text@.skip(start as int));
    if start >= text.len() {
        return None;
    }
    let mut value: u64 = 0;
    let mut i: usize = start;
    assert(digits.take(0) =~= Seq::<u8>::empty());
    while i < text.len()
        invariant
            start <= i <= text@.len(),
            digits == text@.skip(start as int),
            digits == (if text@.len() > 0 && text@[0] == 0x2B {
                text@.skip(1)
            } else {
                text@
            }),
            forall|k: int| 0 <= k < i - start ==> 0x30 <= #[trigger] digits[k] <= 0x39,
            value as nat == digits_value(digits.take(i - start)),
        decreases text@.len() - i,
    {
        let c: u8 = text[i];
        let ghost at = i - start;
        assert(digits[at] == c);
        if c < 0x30 || c > 0x39 {
            return None;
        }
        let d: u64 = (c - 0x30) as u64;
        proof {
            let t = digits.take(at + 1);
            assert(t.drop_last() =~= digits.take(at));
            assert(t.last() == c);
            lemma_digits_grow(digits, at + 1);
        }
        if value > (u64::MAX - d) / 10 {
            proof {
                if all_digits(digits) {
                    assert(digits_value(digits.take(at + 1)) > u64::MAX);
                }
            }
            return None;
        }
        value = value * 10 + d;
        i = i + 1;
    }
    assert(digits.take(digits.len() as int) =~= digits);
    Some(value)
}

proof fn lemma_digits_grow(s: Seq<u8>, k: int)
    requires
        0 <= k <= s.len(),
    ensures
        digits_value(s.take(k)) <= digits_value(s),
    decreases s.len() - k,
{
    if k == s.len() {
        assert(s.take(k) =~= s);
    } else {
        lemma_digits_grow(s, k + 1);
        let t = s.take(k + 1);
        assert(t.drop_last() =~= s.take(k));
    }
}

/// Whether `paths` is the sorted listing, without repetition, of what `wanted` holds of.
pub open spec fn is_listing(paths: Seq<Seq<u8>>, wanted: spec_fn(Seq<u8>) -> bool) -> bool {
    &&& forall|i: int, j: int|
        0 <= i < j < paths.len() ==> #[trigger] sorts_before(paths[i], paths[j])
    &&& forall|i: int| 0 <= i < paths.len() ==> wanted(#[trigger] paths[i])
    &&& forall|p: Seq<u8>| #[trigger] wanted(p) ==> paths.contains(p)
}

/// There is only one such listing.
pub proof fn lemma_listing_unique(
    a: Seq<Seq<u8>>,
    b: Seq<Seq<u8>>,
    wanted: spec_fn(Seq<u8>) -> bool,
)
    requires
        is_listing(a, wanted),
        is_listing(b, wanted),
    ensures
        a == b,
{
    assert(a.take(0) =~= b.take(0));
    lemma_listing_prefix(a, b, wanted, 0);
}

/// From the `k`-th path on, where the listings agree up to there.
proof fn lemma_listing_prefix(
    a: Seq<Seq<u8>>,
    b: Seq<Seq<u8>>,
    wanted: spec_fn(Seq<u8>) -> bool,
    k: int,
)
    requires
        is_listing(a, wanted),
        is_listing(b, wanted),
        0 <= k <= a.len(),
        k <= b.len(),
        a.take(k) == b.take(k),
    ensures
        a == b,
    decreases a.len() - k,
{
    assert forall|i: int| 0 <= i < k implies a[i] == b[i] by {
        assert(a[i] == a.take(k)[i]);
        assert(b[i] == b.take(k)[i]);
    }
    if k == a.len() {
        if k < b.len() {
            assert(wanted(b[k]));
            let i = choose|i: int| 0 <= i < a.len() && a[i] == b[k];
            assert(sorts_before(b[i], b[k]));
            lemma_sorts_irreflexive(b[k]);
        }
        assert(a =~= b);
    } else if k == b.len() {
        assert(wanted(a[k]));
        let i = choose|i: int| 0 <= i < b.len() && b[i] == a[k];
        assert(sorts_before(a[i], a[k]));
        lemma_sorts_irreflexive(a[k]);
    } else {
        assert(wanted(a[k]));
        assert(wanted(b[k]));
        let i = choose|i: int| 0 <= i < b.len() && b[i] == a[k];
        let j = choose|j: int| 0 <= j < a.len() && a[j] == b[k];
        if a[k] != b[k] {
            if i < k {
                assert(sorts_before(a[i], a[k]));
                lemma_sorts_irreflexive(a[k]);
            } else {
                assert(sorts_before(b[k], b[i]));
            }
            if j < k {
                assert(sorts_before(b[j], b[k]));
                lemma_sorts_irreflexive(b[k]);
            } else {
                assert(sorts_before(a[k], a[j]));
            }
            lemma_sorts_transitive(a[k], b[k], a[k]);
            lemma_sorts_irreflexive(a[k]);
        }
        assert(a.take(k + 1) =~= b.take(k + 1));
        lemma_listing_prefix(a, b, wanted, k + 1);
    }
}

/// A name without a separator makes a path directly inside the directory, and
/// every such path is the directory, a separator and a name.
pub proof fn law_children_are_joined(dir: Seq<u8>, name: Seq<u8>, path: Seq<u8>)
    ensures
        name.len() > 0 && (forall|i: int| 0 <= i < name.len() ==> name[i] != 0x2F) ==> is_child(
            join(dir, name),
            dir,
        ),
        is_child(path, dir) ==> path == join(dir, path.skip(dir.len() as int + 1)) && !path.skip(
            dir.len() as int + 1,
        ).contains(0x2F),
{
    let whole = join(dir, name);
    if name.len() > 0 && (forall|i: int| 0 <= i < name.len() ==> name[i] != 0x2F) {
        assert(whole.take(dir.len() as int) =~= dir);
        assert forall|i: int| dir.len() < i < whole.len() implies #[trigger] whole[i] != 0x2F by {
            assert(whole[i] == name[i - dir.len() - 1]);
        }
    }
    if is_child(path, dir) {
        let rest = path.skip(dir.len() as int + 1);
        assert forall|i: int| 0 <= i < path.len() implies path[i] == join(dir, rest)[i] by {
            if i < dir.len() {
                assert(path[i] == path.take(dir.len() as int)[i]);
            }
        }
        assert(path =~= join(dir, rest));
        assert forall|i: int| 0 <= i < rest.len() implies rest[i] != 0x2F by {
            assert(rest[i] == path[i + dir.len() + 1]);
        }
    }
}

/// A path has the extension where it is a name, a dot and the extension, and not
/// where the name is missing.
pub proof fn law_extension_stands_behind_a_name(front: Seq<u8>, ext: Seq<u8>)
    ensures
        has_extension(front + seq![0x2Eu8] + ext, ext) <==> front.len() > 0 && front.last() != 0x2F,
{
    let path = front + seq![0x2Eu8] + ext;
    let cut = path.len() - ext.len() - 1;
    assert(cut == front.len());
    assert(path.skip(cut + 1) =~= ext);
    if front.len() > 0 {
        assert(path[cut - 1] == front.last());
    }
}

/// The file for a seq lies in the directory, under twenty digits and the
/// extension; its name gives the seq back, and files sort as their seqs do.
pub proof fn law_files_are_named_by_seq(dir: Seq<u8>, a: u64, b: u64, ext: Seq<u8>)
    requires
        ext == seg_ext() || ext == snap_ext(),
    ensures
        numbered(dir, a, ext).len() == dir.len() + 1 + 20 + 1 + ext.len(),
        is_child(numbered(dir, a, ext), dir),
        has_extension(numbered(dir, a, ext), ext),
        stem_number(stem(numbered(dir, a, ext), dir.len(), ext.len())) == Some(a),
        a < b ==> sorts_before(numbered(dir, a, ext), numbered(dir, b, ext)),
        seg_ext() == seq![0x73u8, 0x65u8, 0x67u8],
        snap_ext() == seq![0x73u8, 0x6Eu8, 0x61u8, 0x70u8],
{
    lemma_numbered(dir, a, ext);
    lemma_padded_len(a as nat, 20);
    if a < b {
        lemma_numbered_sorts(dir, a, b, ext);
    }
}

/// Paths sort component by component: what lies inside a directory comes before
/// any sibling whose name goes on where the directory's ends.
pub proof fn law_paths_sort_by_component(dir: Seq<u8>, x: Seq<u8>, b: u8, y: Seq<u8>)
    requires
        b != 0x2F,
    ensures
        sorts_before(dir + (seq![0x2Fu8] + x), dir + (seq![b] + y)),
        !sorts_before(dir + (seq![b] + y), dir + (seq![0x2Fu8] + x)),
        sorts_before(dir, dir + (seq![b] + y)),
{
    let inside = seq![0x2Fu8] + x;
    let beside = seq![b] + y;
    assert(sorts_before(inside, beside));
    lemma_sorts_prefix(dir, inside, beside);
    lemma_sorts_irreflexive(dir + inside);
    if sorts_before(dir + beside, dir + inside) {
        lemma_sorts_transitive(dir + inside, dir + beside, dir + inside);
    }
    lemma_sorts_prefix(dir, Seq::empty(), beside);
    assert(dir + Seq::<u8>::empty() =~= dir);
}

/// A name stands for a number where it is digits, with a plus in front or not;
/// appending a digit multiplies by ten.
pub proof fn law_names_read_as_decimals(stem: Seq<u8>, d: u8)
    requires
        0x30 <= d <= 0x39,
    ensures
        stem_number(Seq::empty()) is None,
        stem_number(seq![d]) == Some((d - 0x30) as u64),
        stem.len() > 0 && all_digits(stem) ==> digits_value(stem.push(d)) == 10 * digits_value(stem)
            + (d - 0x30),
        stem.len() > 0 && !all_digits(stem) && stem[0] != 0x2B ==> stem_number(stem) is None,
{
    assert(stem.push(d).drop_last() =~= stem);
    let one = seq![d];
    assert(one.drop_last() =~= Seq::empty());
    assert(digits_value(one.drop_last()) == 0);
    assert(all_digits(one));
}

} // verus!
