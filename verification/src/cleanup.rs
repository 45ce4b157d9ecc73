//! The one-shot startup cleanup: reading the boolean settings, turning the
//! configured gigabyte threshold into bytes, and the size-threshold policy
//! that evicts least-recently-played tracks until the cache fits.

use vstd::prelude::*;
use crate::analyze::has_membership;
use crate::model::{Membership, MembershipModel, TrackModel, TrackRecord};
use crate::range::{all_digits, digit_value, digits_value, is_digit_char};
use crate::textfmt::GIB;

verus! {

/// What a boolean setting means: enabled exactly when it is stored as
/// `true`; an absent or different value disables the feature.
pub open spec fn spec_bool_setting(v: Option<Seq<char>>) -> bool {
    match v {
        Some(s) => s == "true"@,
        None => false,
    }
}

/// Reads a stored boolean setting.
pub fn setting_enabled(v: &Option<String>) -> (r: bool)
    ensures
        r == spec_bool_setting(v.deep_view()),
{
    match v {
        Some(s) => crate::analyze::str_equal(s.as_str(), "true"),
        None => false,
    }
}

/// Index of the first `.` in `s`, or its length when there is none.
pub open spec fn first_dot(s: Seq<char>) -> int
    decreases s.len(),
{
    if s.len() == 0 {
        0
    } else if s[0] == '.' {
        0
    } else {
        1 + first_dot(s.skip(1))
    }
}

proof fn lemma_first_dot(s: Seq<char>)
    ensures
        0 <= first_dot(s) <= s.len(),
        forall|j: int| 0 <= j < first_dot(s) ==> s[j] != '.',
        first_dot(s) == s.len() || s[first_dot(s)] == '.',
    decreases s.len(),
{
    if s.len() != 0 && s[0] != '.' {
        lemma_first_dot(s.skip(1));
        assert forall|j: int| 0 <= j < first_dot(s) implies s[j] != '.' by {
            if j > 0 {
                assert(s.skip(1)[j - 1] != '.');
            }
        }
        if first_dot(s) < s.len() {
            assert(s.skip(1)[first_dot(s.skip(1))] == s[first_dot(s)]);
        }
    }
}

proof fn lemma_first_dot_is(s: Seq<char>, d: int)
    requires
        0 <= d <= s.len(),
        forall|j: int| 0 <= j < d ==> s[j] != '.',
        d == s.len() || s[d] == '.',
    ensures
        first_dot(s) == d,
{
    lemma_first_dot(s);
    if first_dot(s) < d {
        assert(s[first_dot(s)] != '.');
    }
    if d < first_dot(s) {
        assert(s[d] != '.');
    }
}

/// Ten to the `k`.
pub open spec fn pow10(k: nat) -> nat
    decreases k,
{
    if k == 0 {
        1
    } else {
        10 * pow10((k - 1) as nat)
    }
}

/// The fractional digits of a gigabyte value read as a count of
/// nano-gigabytes: the first nine digits, padded with zeros on the right.
pub open spec fn frac_nanos(f: Seq<char>) -> nat {
    if f.len() >= 9 {
        digits_value(f.take(9))
    } else {
        digits_value(f) * pow10((9 - f.len()) as nat)
    }
}

/// The byte count a stored gigabyte value denotes: `<digits>` or
/// `<digits>.<digits>`, at nano-gigabyte precision, as long as the result
/// fits in u64; anything else disables the threshold.
pub open spec fn spec_parse_threshold_gb(s: Seq<char>) -> Option<u64> {
    let d = first_dot(s);
    let int_p = s.take(d);
    let frac_p = if d == s.len() {
        Seq::<char>::empty()
    } else {
        s.skip(d + 1)
    };
    if int_p.len() == 0 || !all_digits(int_p) {
        None
    } else if d < s.len() && (frac_p.len() == 0 || !all_digits(frac_p)) {
        None
    } else {
        let bytes = digits_value(int_p) * (GIB as nat) + frac_nanos(frac_p) * (GIB as nat)
            / 1000000000;
        if bytes <= u64::MAX {
            Some(bytes as u64)
        } else {
            None
        }
    }
}

/// Padding a digit string with zeros on the right scales its value by a
/// power of ten.
proof fn lemma_pad_zeros(s: Seq<char>, k: nat)
    ensures
        digits_value(s + Seq::new(k, |i: int| '0')) == digits_value(s) * pow10(k),
    decreases k,
{
    let zeros = Seq::new(k, |i: int| '0');
    if k == 0 {
        assert(s + zeros =~= s);
        assert(digits_value(s) * 1 == digits_value(s)) by (nonlinear_arith);
    } else {
        let shorter = Seq::new((k - 1) as nat, |i: int| '0');
        lemma_pad_zeros(s, (k - 1) as nat);
        let w = s + zeros;
        assert(w.drop_last() =~= s + shorter);
        assert(w.last() == '0');
        assert(digit_value('0') == 0);
        assert(digits_value(w) == digits_value(s + shorter) * 10);
        assert(digits_value(s) * pow10((k - 1) as nat) * 10 == digits_value(s) * (10 * pow10(
            (k - 1) as nat,
        ))) by (nonlinear_arith);
    }
}

/// Turns a stored gigabyte value into a byte threshold.
#[verifier::loop_isolation(false)]
pub fn parse_threshold_gb(s: &str) -> (r: Option<u64>)
    ensures
        r == spec_parse_threshold_gb(s@),
{
    let n = s.unicode_len();
    let mut d: usize = 0;
    while d < n && s.get_char(d) != '.'
        invariant
            0 <= d <= n,
            n == s@.len(),
            forall|j: int| 0 <= j < d ==> s@[j] != '.',
        decreases n - d,
    {
        d = d + 1;
    }
    proof {
        lemma_first_dot_is(s@, d as int);
    }
    let ghost int_p = s@.take(d as int);
    let ghost frac_p = if d == n {
        Seq::<char>::empty()
    } else {
        s@.skip(d as int + 1)
    };
    if d == 0 {
        assert(int_p.len() == 0);
        return None;
    }
    let iv = match crate::range::parse_decimal_u64(s, 0, d) {
        Some(v) => v,
        None => {
            proof {
                assert(s@.subrange(0, d as int) == int_p);
                if int_p.len() > 0 && all_digits(int_p) {
                    // The integer part alone is past u64::MAX, so the sum
                    // of both contributions is too.
                    assert(digits_value(int_p) > u64::MAX);
                    assert(digits_value(int_p) * (GIB as nat) >= digits_value(int_p) * 1)
                        by (nonlinear_arith)
                        requires
                            GIB >= 1,
                    ;
                    assert(digits_value(int_p) * 1 == digits_value(int_p)) by (nonlinear_arith);
                }
            }
            return None;
        },
    };
    assert(iv == digits_value(int_p));

    let mut fv: u64 = 0;
    if d < n {
        if d + 1 == n {
            assert(frac_p.len() == 0);
            return None;
        }
        // Every fractional character must be a digit, whether or not it
        // lands inside the nine kept places.
        let mut j: usize = d + 1;
        while j < n
            invariant
                d + 1 <= j <= n,
                n == s@.len(),
                d < n,
                frac_p == s@.skip(d as int + 1),
                forall|t: int| 0 <= t < j - d - 1 ==> is_digit_char(#[trigger] frac_p[t]),
            decreases n - j,
        {
            let c = s.get_char(j);
            let u = c as u32;
            if !(48 <= u && u <= 57) {
                assert(!is_digit_char(frac_p[j - d - 1]));
                return None;
            }
            assert(frac_p[j - d - 1] == s@[j as int]);
            j = j + 1;
        }
        assert(all_digits(frac_p));

        // Read the first nine fractional digits, padding with zeros.
        let flen = n - (d + 1);
        let mut k: usize = 0;
        while k < 9
            invariant
                0 <= k <= 9,
                n == s@.len(),
                d < n,
                d + 1 <= n,
                flen == n - d - 1,
                frac_p == s@.skip(d as int + 1),
                fv == digits_value(Seq::new(k as nat, |t: int| if t < flen { frac_p[t] } else { '0' })),
                fv < pow10(k as nat),
            decreases 9 - k,
        {
            let ghost padded = Seq::new(k as nat, |t: int| if t < flen { frac_p[t] } else { '0' });
            let ghost wider = Seq::new(
                (k + 1) as nat,
                |t: int| if t < flen { frac_p[t] } else { '0' },
            );
            let c: u64 = if k < flen {
                let c = s.get_char(d + 1 + k);
                assert(is_digit_char(frac_p[k as int]));
                (c as u32 - 48) as u64
            } else {
                0
            };
            proof {
                assert(wider.drop_last() =~= padded);
                if k < flen {
                    assert(wider.last() == frac_p[k as int]);
                    assert(c == digit_value(wider.last()));
                } else {
                    assert(wider.last() == '0');
                    assert(digit_value('0') == 0);
                }
                assert(digits_value(wider) == digits_value(padded) * 10 + digit_value(
                    wider.last(),
                ));
                assert(fv * 10 + c < pow10(k as nat) * 10) by (nonlinear_arith)
                    requires
                        fv < pow10(k as nat),
                        c < 10,
                ;
                assert(pow10((k + 1) as nat) == 10 * pow10(k as nat));
                lemma_pow10_9();
                crate::cleanup::lemma_pow10_le(k as nat, 9);
            }
            fv = fv * 10 + c;
            k = k + 1;
        }
        proof {
            let padded9 = Seq::new(9, |t: int| if t < flen { frac_p[t] } else { '0' });
            lemma_pow10_9();
            if flen >= 9 {
                assert(padded9 =~= frac_p.take(9));
                assert(fv == frac_nanos(frac_p));
            } else {
                let zeros = Seq::new((9 - flen) as nat, |i: int| '0');
                assert(padded9 =~= frac_p + zeros);
                lemma_pad_zeros(frac_p, (9 - flen) as nat);
                assert(fv == frac_nanos(frac_p));
            }
        }
    } else {
        proof {
            assert(frac_p.len() == 0);
            assert(digits_value(frac_p) == 0);
            assert(frac_nanos(frac_p) == 0 * pow10(9)) by {
                assert(digits_value(frac_p) == 0);
            }
            assert(0 * pow10(9) == 0) by (nonlinear_arith);
        }
    }
    assert(fv == frac_nanos(frac_p));
    proof {
        lemma_pow10_9();
        assert(fv < 1000000000);
        assert(fv * GIB < 1000000000 * GIB) by (nonlinear_arith)
            requires
                fv < 1000000000,
                GIB > 0,
        ;
    }
    let fb: u64 = fv * GIB / 1000000000;
    assert(fb as nat == frac_nanos(frac_p) * (GIB as nat) / 1000000000);

    // The integer part must leave room for the fractional bytes.
    if iv > (u64::MAX - fb) / GIB {
        proof {
            assert(iv * GIB + fb > u64::MAX) by (nonlinear_arith)
                requires
                    iv as int > (u64::MAX - fb) as int / (GIB as int),
                    fb <= u64::MAX,
                    GIB > 0,
            ;
        }
        return None;
    }
    proof {
        assert(iv * GIB + fb <= u64::MAX) by (nonlinear_arith)
            requires
                iv as int <= (u64::MAX - fb) as int / (GIB as int),
                fb <= u64::MAX,
                GIB > 0,
        ;
    }
    Some(iv * GIB + fb)
}

/// `pow10(9)` written out.
proof fn lemma_pow10_9()
    ensures
        pow10(9) == 1000000000,
{
    assert(pow10(0) == 1);
    assert(pow10(1) == 10);
    assert(pow10(2) == 100);
    assert(pow10(3) == 1000);
    assert(pow10(4) == 10000);
    assert(pow10(5) == 100000);
    assert(pow10(6) == 1000000);
    assert(pow10(7) == 10000000);
    assert(pow10(8) == 100000000);
    assert(pow10(9) == 1000000000);
}

/// Powers of ten grow with the exponent.
proof fn lemma_pow10_le(a: nat, b: nat)
    requires
        a <= b,
    ensures
        pow10(a) <= pow10(b),
    decreases b,
{
    if a < b {
        lemma_pow10_le(a, (b - 1) as nat);
        assert(pow10(b) == 10 * pow10((b - 1) as nat));
        assert(10 * pow10((b - 1) as nat) >= pow10((b - 1) as nat)) by (nonlinear_arith);
    }
}


// ---------- ordering by last played ----------

/// "Played no later than": a never-played track sorts before every played
/// one, and played tracks sort by their timestamp.
pub open spec fn key_le(a: TrackModel, b: TrackModel) -> bool {
    match (a.last_played_at, b.last_played_at) {
        (Option::None, _) => true,
        (Option::Some(x), Option::None) => false,
        (Option::Some(x), Option::Some(y)) => x <= y,
    }
}

/// The order is total.
proof fn lemma_key_le_total(a: TrackModel, b: TrackModel)
    ensures
        key_le(a, b) || key_le(b, a),
{
}

/// Oldest (or never-played) first.
pub open spec fn sorted_by_played(s: Seq<TrackModel>) -> bool {
    forall|i: int, j: int| 0 <= i < j < s.len() ==> key_le(#[trigger] s[i], #[trigger] s[j])
}

/// Where `t` lands in `s`: after every leading element that plays no later
/// than it.
pub open spec fn insert_pos(t: TrackModel, s: Seq<TrackModel>) -> int
    decreases s.len(),
{
    if s.len() == 0 {
        0
    } else if key_le(s[0], t) {
        1 + insert_pos(t, s.skip(1))
    } else {
        0
    }
}

proof fn lemma_insert_pos(t: TrackModel, s: Seq<TrackModel>)
    ensures
        0 <= insert_pos(t, s) <= s.len(),
        forall|j: int| 0 <= j < insert_pos(t, s) ==> key_le(#[trigger] s[j], t),
        insert_pos(t, s) == s.len() || !key_le(s[insert_pos(t, s)], t),
    decreases s.len(),
{
    if s.len() != 0 && key_le(s[0], t) {
        lemma_insert_pos(t, s.skip(1));
        assert forall|j: int| 0 <= j < insert_pos(t, s) implies key_le(#[trigger] s[j], t) by {
            if j > 0 {
                assert(key_le(s.skip(1)[j - 1], t));
            }
        }
        if insert_pos(t, s) < s.len() {
            assert(s.skip(1)[insert_pos(t, s.skip(1))] == s[insert_pos(t, s)]);
        }
    }
}

proof fn lemma_insert_pos_is(t: TrackModel, s: Seq<TrackModel>, p: int)
    requires
        0 <= p <= s.len(),
        forall|j: int| 0 <= j < p ==> key_le(#[trigger] s[j], t),
        p == s.len() || !key_le(s[p], t),
    ensures
        insert_pos(t, s) == p,
{
    lemma_insert_pos(t, s);
    if insert_pos(t, s) < p {
        assert(key_le(s[insert_pos(t, s)], t));
    }
    if p < insert_pos(t, s) {
        assert(key_le(s[p], t));
    }
}

/// `s` with `t` placed at its position.
pub open spec fn insert_sorted(t: TrackModel, s: Seq<TrackModel>) -> Seq<TrackModel> {
    s.insert(insert_pos(t, s), t)
}

/// The sorted arrangement of `s`, oldest play first, never-played ahead of
/// everything, later store rows after equal keys.
pub open spec fn sort_by_played(s: Seq<TrackModel>) -> Seq<TrackModel>
    decreases s.len(),
{
    if s.len() == 0 {
        Seq::empty()
    } else {
        insert_sorted(s.last(), sort_by_played(s.drop_last()))
    }
}

/// The total number of bytes a run of candidates occupies.
pub open spec fn sum_sizes(s: Seq<TrackModel>) -> nat
    decreases s.len(),
{
    if s.len() == 0 {
        0
    } else {
        sum_sizes(s.drop_last()) + s.last().file_size as nat
    }
}

proof fn lemma_sum_sizes_singleton(t: TrackModel)
    ensures
        sum_sizes(seq![t]) == t.file_size,
{
    assert(seq![t].drop_last() =~= Seq::<TrackModel>::empty());
    assert(sum_sizes(Seq::<TrackModel>::empty()) == 0);
    assert(seq![t].last() == t);
}

proof fn lemma_sum_sizes_concat(a: Seq<TrackModel>, b: Seq<TrackModel>)
    ensures
        sum_sizes(a + b) == sum_sizes(a) + sum_sizes(b),
    decreases b.len(),
{
    if b.len() == 0 {
        assert(a + b =~= a);
    } else {
        assert((a + b).drop_last() =~= a + b.drop_last());
        assert((a + b).last() == b.last());
        lemma_sum_sizes_concat(a, b.drop_last());
    }
}

/// The sum splits at any point.
pub proof fn lemma_sum_sizes_split(s: Seq<TrackModel>, i: int)
    requires
        0 <= i <= s.len(),
    ensures
        sum_sizes(s) == sum_sizes(s.take(i)) + sum_sizes(s.skip(i)),
{
    assert(s =~= s.take(i) + s.skip(i));
    lemma_sum_sizes_concat(s.take(i), s.skip(i));
}

proof fn lemma_sum_sizes_front(s: Seq<TrackModel>)
    requires
        s.len() > 0,
    ensures
        sum_sizes(s) == s[0].file_size + sum_sizes(s.skip(1)),
{
    lemma_sum_sizes_split(s, 1);
    let first = s.take(1);
    assert(first =~= seq![s[0]]);
    lemma_sum_sizes_singleton(s[0]);
}

/// Inserting a track keeps every other one, keeps the order sorted, and
/// adds exactly its size.
pub proof fn lemma_insert_sorted_props(t: TrackModel, s: Seq<TrackModel>)
    requires
        sorted_by_played(s),
    ensures
        insert_sorted(t, s).len() == s.len() + 1,
        sorted_by_played(insert_sorted(t, s)),
        insert_sorted(t, s).to_multiset() == s.to_multiset().insert(t),
        sum_sizes(insert_sorted(t, s)) == sum_sizes(s) + t.file_size,
{
    lemma_insert_pos(t, s);
    let p = insert_pos(t, s);
    let w = insert_sorted(t, s);
    assert(w =~= s.take(p) + seq![t] + s.skip(p));
    broadcast use vstd::seq_lib::to_multiset_insert;

    assert forall|i: int, j: int| 0 <= i < j < w.len() implies key_le(#[trigger] w[i], #[trigger] w[j]) by {
        if i < p {
            assert(w[i] == s[i]);
        } else if i == p {
            assert(w[i] == t);
        } else {
            assert(w[i] == s[i - 1]);
        }
        if j < p {
            assert(w[j] == s[j]);
        } else if j == p {
            assert(w[j] == t);
        } else {
            assert(w[j] == s[j - 1]);
        }
        if j == p && i < p {
            assert(key_le(s[i], t));
        }
        if i == p && j > p {
            // t goes before s[p], which sorts no later than s[j - 1].
            lemma_key_le_total(t, s[p]);
            if j - 1 > p {
                assert(key_le(s[p], s[j - 1]));
            }
            lemma_key_le_trans(t, s[p], s[j - 1]);
        }
    }
    lemma_sum_sizes_concat(s.take(p) + seq![t], s.skip(p));
    lemma_sum_sizes_concat(s.take(p), seq![t]);
    lemma_sum_sizes_singleton(t);
    lemma_sum_sizes_split(s, p);
    assert((s.take(p) + seq![t] + s.skip(p)) =~= (s.take(p) + seq![t]) + s.skip(p));
}

/// The order chains.
proof fn lemma_key_le_trans(a: TrackModel, b: TrackModel, c: TrackModel)
    requires
        key_le(a, b),
        key_le(b, c),
    ensures
        key_le(a, c),
{
}

/// Sorting keeps exactly the given tracks and their total size, oldest
/// play (or never played) first.
pub proof fn lemma_sort_by_played_props(s: Seq<TrackModel>)
    ensures
        sort_by_played(s).len() == s.len(),
        sorted_by_played(sort_by_played(s)),
        sort_by_played(s).to_multiset() == s.to_multiset(),
        sum_sizes(sort_by_played(s)) == sum_sizes(s),
    decreases s.len(),
{
    broadcast use vstd::seq_lib::to_multiset_build;

    if s.len() == 0 {
        assert(s =~= Seq::<TrackModel>::empty());
    } else {
        lemma_sort_by_played_props(s.drop_last());
        lemma_insert_sorted_props(s.last(), sort_by_played(s.drop_last()));
        assert(s =~= s.drop_last().push(s.last()));
    }
}

// ---------- the size-threshold selection ----------

/// How many of the candidates, in order, must go before the running total
/// comes down to the threshold: none once it fits, all of them if even
/// that does not suffice.
pub open spec fn select_count(s: Seq<TrackModel>, current: int, threshold: u64) -> int
    decreases s.len(),
{
    if current <= threshold || s.len() == 0 {
        0
    } else {
        1 + select_count(s.skip(1), current - s[0].file_size, threshold)
    }
}

/// The ids of the first `k` candidates.
pub open spec fn prefix_ids(s: Seq<TrackModel>, k: int) -> Seq<Seq<char>> {
    s.take(k).map_values(|t: TrackModel| t.song_id)
}

/// What the selection achieves: it never stops while the total is still
/// above the threshold and candidates remain, and it never takes a track
/// once the total fits.
pub proof fn lemma_select_count_props(s: Seq<TrackModel>, current: int, threshold: u64)
    ensures
        0 <= select_count(s, current, threshold) <= s.len(),
        current - sum_sizes(s.take(select_count(s, current, threshold))) <= threshold
            || select_count(s, current, threshold) == s.len(),
        forall|j: int|
            0 <= j < select_count(s, current, threshold) ==> current - sum_sizes(#[trigger] s.take(j))
                > threshold,
    decreases s.len(),
{
    let k = select_count(s, current, threshold);
    if current <= threshold || s.len() == 0 {
        assert(s.take(0) =~= Seq::<TrackModel>::empty());
    } else {
        let rest = s.skip(1);
        let c2 = current - s[0].file_size;
        lemma_select_count_props(rest, c2, threshold);
        let k2 = select_count(rest, c2, threshold);
        assert(k == 1 + k2);
        assert forall|j: int| 0 <= j <= s.len() && j >= 1 implies current - sum_sizes(
            #[trigger] s.take(j),
        ) == c2 - sum_sizes(rest.take(j - 1)) by {
            assert(s.take(j) =~= seq![s[0]] + rest.take(j - 1));
            lemma_sum_sizes_concat(seq![s[0]], rest.take(j - 1));
            lemma_sum_sizes_singleton(s[0]);
        }
        assert(s.take(k) =~= s.take(k));
        assert forall|j: int| 0 <= j < k implies current - sum_sizes(#[trigger] s.take(j))
            > threshold by {
            if j == 0 {
                assert(s.take(0) =~= Seq::<TrackModel>::empty());
            } else {
                assert(c2 - sum_sizes(rest.take(j - 1)) > threshold);
            }
        }
    }
}


// ---------- executable sort and selection ----------

/// Compares two records by last play, never-played first.
fn played_le(a: &TrackRecord, b: &TrackRecord) -> (r: bool)
    ensures
        r == key_le(a@, b@),
{
    match (a.last_played_at, b.last_played_at) {
        (Option::None, _) => true,
        (Option::Some(_), Option::None) => false,
        (Option::Some(x), Option::Some(y)) => x <= y,
    }
}

/// Places one record into an already sorted run.
#[verifier::loop_isolation(false)]
fn insert_by_played(out: &mut Vec<TrackRecord>, t: TrackRecord)
    ensures
        final (out).deep_view() == insert_sorted(t@, old(out).deep_view()),
{
    let ghost s = out.deep_view();
    let ghost tm = t@;
    let n = out.len();
    let mut p: usize = 0;
    while p < n && played_le(&out[p], &t)
        invariant
            0 <= p <= n,
            forall|j: int| 0 <= j < p ==> key_le(#[trigger] s[j], tm),
        decreases n - p,
    {
        p = p + 1;
    }
    proof {
        lemma_insert_pos_is(tm, s, p as int);
    }
    out.insert(p, t);
    proof {
        let w = insert_sorted(tm, s);
        assert(w == s.insert(p as int, tm));
        assert forall|j: int| 0 <= j < w.len() implies out.deep_view()[j] == w[j] by {
            if j < p {
                assert(out@[j] == old(out)@[j]);
            } else if j == p {
                assert(out@[j] == t);
            } else {
                assert(out@[j] == old(out)@[j - 1]);
            }
        }
        assert(out.deep_view() =~= w);
    }
}

/// Sorts the candidates by last play, oldest (or never played) first.
#[verifier::loop_isolation(false)]
pub fn sort_tracks_by_played(tracks: &Vec<TrackRecord>) -> (r: Vec<TrackRecord>)
    ensures
        r.deep_view() == sort_by_played(tracks.deep_view()),
{
    let ghost all = tracks.deep_view();
    let n = tracks.len();
    let mut out: Vec<TrackRecord> = Vec::new();
    let mut i: usize = 0;
    assert(out.deep_view() =~= sort_by_played(all.take(0)));
    while i < n
        invariant
            0 <= i <= n,
            out.deep_view() == sort_by_played(all.take(i as int)),
        decreases n - i,
    {
        insert_by_played(&mut out, tracks[i].duplicate());
        proof {
            assert(all.take(i + 1).drop_last() =~= all.take(i as int));
            assert(all.take(i + 1).last() == all[i as int]);
        }
        i = i + 1;
    }
    proof {
        assert(all.take(n as int) =~= all);
    }
    out
}

// ---------- candidates of the size-threshold policy ----------

/// A track the size-threshold policy may evict: it is cached under a
/// non-empty path, and, when playlist tracks are excluded, no playlist
/// references it.
pub open spec fn cleanup_candidate(t: TrackModel, exclude: bool, rows: Seq<MembershipModel>)
    -> bool {
    &&& t.file_path is Some
    &&& t.file_path->0.len() > 0
    &&& (!exclude || !has_membership(t.song_id, rows))
}

/// The candidates, in store order.
pub open spec fn cleanup_candidates(
    tracks: Seq<TrackModel>,
    exclude: bool,
    rows: Seq<MembershipModel>,
) -> Seq<TrackModel>
    decreases tracks.len(),
{
    if tracks.len() == 0 {
        Seq::empty()
    } else {
        let rest = cleanup_candidates(tracks.drop_last(), exclude, rows);
        if cleanup_candidate(tracks.last(), exclude, rows) {
            rest.push(tracks.last())
        } else {
            rest
        }
    }
}

/// Collects the tracks the size-threshold policy may evict.
#[verifier::loop_isolation(false)]
fn collect_candidates(tracks: &Vec<TrackRecord>, memberships: &Vec<Membership>, exclude: bool) -> (r:
    Vec<TrackRecord>)
    ensures
        r.deep_view() == cleanup_candidates(tracks.deep_view(), exclude, memberships.deep_view()),
{
    let ghost all = tracks.deep_view();
    let ghost rows = memberships.deep_view();
    let n = tracks.len();
    let mut out: Vec<TrackRecord> = Vec::new();
    let mut i: usize = 0;
    assert(out.deep_view() =~= cleanup_candidates(all.take(0), exclude, rows));
    while i < n
        invariant
            0 <= i <= n,
            out.deep_view() == cleanup_candidates(all.take(i as int), exclude, rows),
        decreases n - i,
    {
        let t = &tracks[i];
        let cached_nonempty = match &t.file_path {
            Some(p) => !p.as_str().is_empty(),
            None => false,
        };
        let hit = cached_nonempty && (!exclude || !crate::analyze::id_has_membership(
            t.song_id.as_str(),
            memberships,
        ));
        assert(hit == cleanup_candidate(all[i as int], exclude, rows));
        proof {
            assert(all.take(i + 1).drop_last() =~= all.take(i as int));
            assert(all.take(i + 1).last() == all[i as int]);
        }
        if hit {
            out.push(t.duplicate());
            assert(out.deep_view() =~= cleanup_candidates(all.take(i + 1), exclude, rows));
        } else {
            assert(out.deep_view() =~= cleanup_candidates(all.take(i + 1), exclude, rows));
        }
        i = i + 1;
    }
    proof {
        assert(all.take(n as int) =~= all);
    }
    out
}

// ---------- the selection loop ----------

/// Walks the sorted candidates, oldest first, and picks tracks until the
/// running total is at or below the threshold or none are left.
#[verifier::loop_isolation(false)]
pub fn select_for_threshold(candidates: &Vec<TrackRecord>, threshold: u64) -> (r: Vec<String>)
    requires
        sum_sizes(candidates.deep_view()) <= u64::MAX,
    ensures
        r.deep_view() == prefix_ids(
            candidates.deep_view(),
            select_count(
                candidates.deep_view(),
                sum_sizes(candidates.deep_view()) as int,
                threshold,
            ),
        ),
{
    let ghost all = candidates.deep_view();
    let n = candidates.len();

    let mut total: u64 = 0;
    let mut i: usize = 0;
    while i < n
        invariant
            0 <= i <= n,
            total == sum_sizes(all.take(i as int)),
        decreases n - i,
    {
        proof {
            assert(all.take(i + 1).drop_last() =~= all.take(i as int));
            assert(all.take(i + 1).last() == all[i as int]);
            lemma_sum_sizes_split(all, i + 1);
            assert(sum_sizes(all.take(i + 1)) <= sum_sizes(all));
        }
        total = total + candidates[i].file_size;
        i = i + 1;
    }
    proof {
        assert(all.take(n as int) =~= all);
    }

    let ghost k = select_count(all, sum_sizes(all) as int, threshold);
    let mut ids: Vec<String> = Vec::new();
    let mut current: u64 = total;
    let mut j: usize = 0;
    assert(ids.deep_view() =~= prefix_ids(all, 0));
    while j < n && current > threshold
        invariant
            0 <= j <= n,
            current == sum_sizes(all) - sum_sizes(all.take(j as int)),
            k == j + select_count(all.skip(j as int), current as int, threshold),
            ids.deep_view() == prefix_ids(all, j as int),
        decreases n - j,
    {
        let t = &candidates[j];
        proof {
            lemma_sum_sizes_split(all, j as int);
            lemma_sum_sizes_front(all.skip(j as int));
            assert(all.skip(j as int)[0] == all[j as int]);
            assert(all.skip(j as int).skip(1) =~= all.skip(j + 1));
            assert(all.take(j + 1).drop_last() =~= all.take(j as int));
            assert(all.take(j + 1).last() == all[j as int]);
            assert(select_count(all.skip(j as int), current as int, threshold) == 1
                + select_count(all.skip(j + 1), current - t@.file_size, threshold));
        }
        assert(ids.deep_view().len() == j as int);
        assert(ids@.len() == j as int);
        ids.push(t.song_id.clone());
        proof {
            assert(ids@[j as int]@ == all[j as int].song_id);
            assert forall|m: int| 0 <= m < j + 1 implies ids.deep_view()[m] == prefix_ids(
                all,
                j + 1,
            )[m] by {
                assert(prefix_ids(all, j + 1)[m] == all[m].song_id);
                if m < j {
                    assert(ids.deep_view()[m] == prefix_ids(all, j as int)[m]);
                    assert(prefix_ids(all, j as int)[m] == all[m].song_id);
                }
            }
            assert(ids.deep_view() =~= prefix_ids(all, j + 1));
        }
        current = current - t.file_size;
        j = j + 1;
    }
    proof {
        if j == n {
            assert(all.skip(n as int) =~= Seq::<TrackModel>::empty());
        }
        assert(select_count(all.skip(j as int), current as int, threshold) == 0);
        assert(k == j as int);
    }
    ids
}

/// The ids the size-threshold policy evicts: the least-recently-played (or
/// never-played) candidates, taken in order until the cached total is at or
/// below the threshold or no candidate is left.
pub fn plan_size_threshold_cleanup(
    tracks: &Vec<TrackRecord>,
    memberships: &Vec<Membership>,
    exclude_in_playlist: bool,
    threshold: u64,
) -> (r: Vec<String>)
    requires
        sum_sizes(
            cleanup_candidates(
                tracks.deep_view(),
                exclude_in_playlist,
                memberships.deep_view(),
            ),
        ) <= u64::MAX,
    ensures
        ({
            let sorted = sort_by_played(
                cleanup_candidates(
                    tracks.deep_view(),
                    exclude_in_playlist,
                    memberships.deep_view(),
                ),
            );
            r.deep_view() == prefix_ids(
                sorted,
                select_count(sorted, sum_sizes(sorted) as int, threshold),
            )
        }),
{
    let candidates = collect_candidates(tracks, memberships, exclude_in_playlist);
    proof {
        lemma_sort_by_played_props(candidates.deep_view());
    }
    let sorted = sort_tracks_by_played(&candidates);
    select_for_threshold(&sorted, threshold)
}

/// The size-threshold policy in one statement: candidates are visited
/// oldest play first (never-played ahead of everything), eviction goes on
/// exactly while the running total is above the threshold, and it stops
/// only once the total fits or every candidate is gone.
pub proof fn lemma_size_threshold_cleanup(
    tracks: Seq<TrackModel>,
    rows: Seq<MembershipModel>,
    exclude: bool,
    threshold: u64,
)
    ensures
        ({
            let sorted = sort_by_played(cleanup_candidates(tracks, exclude, rows));
            let k = select_count(sorted, sum_sizes(sorted) as int, threshold);
            &&& sorted_by_played(sorted)
            &&& sorted.to_multiset() == cleanup_candidates(tracks, exclude, rows).to_multiset()
            &&& 0 <= k <= sorted.len()
            &&& (sum_sizes(sorted) - sum_sizes(sorted.take(k)) <= threshold || k == sorted.len())
            &&& forall|j: int|
                0 <= j < k ==> sum_sizes(sorted) - sum_sizes(#[trigger] sorted.take(j)) > threshold
        }),
{
    let sorted = sort_by_played(cleanup_candidates(tracks, exclude, rows));
    lemma_sort_by_played_props(cleanup_candidates(tracks, exclude, rows));
    lemma_select_count_props(sorted, sum_sizes(sorted) as int, threshold);
}

} // verus!
