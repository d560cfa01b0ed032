use vstd::prelude::*;
use vstd::string::StrSliceExecFns;
use vstd::string::StringExecFns;

use crate::state::BranchInfo;
use crate::state::BranchInfoView;
use crate::state::BranchState;
use crate::state::State;
use crate::state::StateView;
use crate::state::br_view;
use crate::state::branches_wf;

verus! {

// The persisted state document, character by character. Every number is a
// fixed-width decimal field of `FIELD_WIDTH` digits (wide enough for any
// `u64`), every string is its length followed by `:` and the raw
// characters, so no escaping is ever needed. The document is
//
//   str(base_path) str(workspace_path) u64(epoch) u64(count) branch*
//
// with one `branch` per entry, in table order:
//
//   str(name) ( `-` | `+` str(parent) ) ( `a` | `c` | `i` )

/// Digits of the fixed-width decimal fields: enough for any `u64`.
pub const FIELD_WIDTH: usize = 20;

pub open spec fn pow10(w: nat) -> nat
    decreases w,
{
    if w == 0 {
        1
    } else {
        10 * pow10((w - 1) as nat)
    }
}

pub open spec fn digit_char(d: nat) -> char {
    if d == 0 {
        '0'
    } else if d == 1 {
        '1'
    } else if d == 2 {
        '2'
    } else if d == 3 {
        '3'
    } else if d == 4 {
        '4'
    } else if d == 5 {
        '5'
    } else if d == 6 {
        '6'
    } else if d == 7 {
        '7'
    } else if d == 8 {
        '8'
    } else {
        '9'
    }
}

pub open spec fn is_digit(c: char) -> bool {
    c == '0' || c == '1' || c == '2' || c == '3' || c == '4' || c == '5' || c == '6' || c == '7'
        || c == '8' || c == '9'
}

pub open spec fn digit_val(c: char) -> nat {
    if c == '0' {
        0
    } else if c == '1' {
        1
    } else if c == '2' {
        2
    } else if c == '3' {
        3
    } else if c == '4' {
        4
    } else if c == '5' {
        5
    } else if c == '6' {
        6
    } else if c == '7' {
        7
    } else if c == '8' {
        8
    } else {
        9
    }
}

/// `n` in decimal, `w` digits wide, leading zeros kept.
pub open spec fn dec_digits(n: nat, w: nat) -> Seq<char>
    decreases w,
{
    if w == 0 {
        Seq::empty()
    } else {
        dec_digits(n / 10, (w - 1) as nat) + seq![digit_char(n % 10)]
    }
}

/// The number a digit string denotes.
pub open spec fn dec_value(s: Seq<char>) -> nat
    decreases s.len(),
{
    if s.len() == 0 {
        0
    } else {
        dec_value(s.drop_last()) * 10 + digit_val(s.last())
    }
}

pub open spec fn all_digits(s: Seq<char>) -> bool {
    forall|i: int| 0 <= i < s.len() ==> is_digit(s[i])
}

proof fn lemma_dec_digits_shape(n: nat, w: nat)
    ensures
        dec_digits(n, w).len() == w,
        all_digits(dec_digits(n, w)),
    decreases w,
{
    if w == 0 {
    } else {
        lemma_dec_digits_shape(n / 10, (w - 1) as nat);
        let s = dec_digits(n, w);
        let pre = dec_digits(n / 10, (w - 1) as nat);
        assert forall|i: int| 0 <= i < s.len() implies is_digit(s[i]) by {
            if i < w - 1 {
                assert(s[i] == pre[i]);
            } else {
                assert(s[i] == digit_char(n % 10));
            }
        }
    }
}

proof fn lemma_dec_digits_value(n: nat, w: nat)
    requires
        n < pow10(w),
    ensures
        dec_value(dec_digits(n, w)) == n,
    decreases w,
{
    if w == 0 {
    } else {
        assert(pow10(w) == 10 * pow10((w - 1) as nat));
        assert(n / 10 < pow10((w - 1) as nat));
        lemma_dec_digits_value(n / 10, (w - 1) as nat);
        lemma_dec_digits_shape(n / 10, (w - 1) as nat);
        let s = dec_digits(n, w);
        assert(s.drop_last() =~= dec_digits(n / 10, (w - 1) as nat));
        assert(s.last() == digit_char(n % 10));
        assert(digit_val(digit_char(n % 10)) == n % 10);
    }
}

proof fn lemma_dec_value_prefix(s: Seq<char>, k: int)
    requires
        0 <= k <= s.len(),
    ensures
        dec_value(s.take(k)) <= dec_value(s),
    decreases s.len(),
{
    if k == s.len() {
        assert(s.take(k) =~= s);
    } else {
        lemma_dec_value_prefix(s.drop_last(), k);
        assert(s.drop_last().take(k) =~= s.take(k));
    }
}

// ---- the document grammar, encoding side ----

pub open spec fn enc_u64(n: u64) -> Seq<char> {
    dec_digits(n as nat, FIELD_WIDTH as nat)
}

pub open spec fn enc_str(s: Seq<char>) -> Seq<char> {
    enc_u64(s.len() as u64) + seq![':'] + s
}

pub open spec fn enc_opt_str(p: Option<Seq<char>>) -> Seq<char> {
    match p {
        Option::None => seq!['-'],
        Option::Some(s) => seq!['+'] + enc_str(s),
    }
}

pub open spec fn state_char(st: BranchState) -> char {
    match st {
        BranchState::Active => 'a',
        BranchState::Committed => 'c',
        BranchState::Invalid => 'i',
    }
}

pub open spec fn enc_branch(b: (Seq<char>, BranchInfoView)) -> Seq<char> {
    enc_str(b.0) + enc_opt_str(b.1.parent) + seq![state_char(b.1.state)]
}

pub open spec fn enc_branches(br: Seq<(Seq<char>, BranchInfoView)>) -> Seq<char>
    decreases br.len(),
{
    if br.len() == 0 {
        Seq::empty()
    } else {
        enc_branch(br[0]) + enc_branches(br.drop_first())
    }
}

/// The whole document for one aggregate.
pub open spec fn spec_encode(v: StateView) -> Seq<char> {
    enc_str(v.base_path) + enc_str(v.workspace_path) + enc_u64(v.epoch) + enc_u64(
        v.branches.len() as u64,
    ) + enc_branches(v.branches)
}

/// Both strings of one branch entry fit the fixed-width length fields.
pub open spec fn branch_fits(b: (Seq<char>, BranchInfoView)) -> bool {
    &&& b.0.len() <= u64::MAX
    &&& match b.1.parent {
        Option::Some(p) => p.len() <= u64::MAX,
        Option::None => true,
    }
}

impl StateView {
    /// Every length fits the fixed-width length fields. True of any value an
    /// executable `State` can hold, since those lengths are machine sizes.
    pub open spec fn encodable(self) -> bool {
        &&& self.base_path.len() <= u64::MAX
        &&& self.workspace_path.len() <= u64::MAX
        &&& self.branches.len() <= u64::MAX
        &&& forall|i: int|
            #![trigger self.branches[i]]
            0 <= i < self.branches.len() ==> branch_fits(self.branches[i])
    }
}

// ---- the document grammar, decoding side ----
//
// Each decoder consumes a prefix of the remaining characters and hands back
// the rest, or refuses.

pub open spec fn dec_u64(s: Seq<char>) -> Option<(u64, Seq<char>)> {
    if s.len() >= FIELD_WIDTH && all_digits(s.take(FIELD_WIDTH as int)) && dec_value(
        s.take(FIELD_WIDTH as int),
    ) <= u64::MAX {
        Option::Some((dec_value(s.take(FIELD_WIDTH as int)) as u64, s.skip(FIELD_WIDTH as int)))
    } else {
        Option::None
    }
}

pub open spec fn dec_str(s: Seq<char>) -> Option<(Seq<char>, Seq<char>)> {
    match dec_u64(s) {
        Option::Some((n, r)) => if 1 + n <= r.len() && r[0] == ':' {
            Option::Some((r.subrange(1, 1 + n as int), r.skip(1 + n as int)))
        } else {
            Option::None
        },
        Option::None => Option::None,
    }
}

pub open spec fn dec_opt_str(s: Seq<char>) -> Option<(Option<Seq<char>>, Seq<char>)> {
    if s.len() >= 1 && s[0] == '-' {
        Option::Some((Option::None, s.skip(1)))
    } else if s.len() >= 1 && s[0] == '+' {
        match dec_str(s.skip(1)) {
            Option::Some((x, r)) => Option::Some((Option::Some(x), r)),
            Option::None => Option::None,
        }
    } else {
        Option::None
    }
}

pub open spec fn dec_state(s: Seq<char>) -> Option<(BranchState, Seq<char>)> {
    if s.len() >= 1 && s[0] == 'a' {
        Option::Some((BranchState::Active, s.skip(1)))
    } else if s.len() >= 1 && s[0] == 'c' {
        Option::Some((BranchState::Committed, s.skip(1)))
    } else if s.len() >= 1 && s[0] == 'i' {
        Option::Some((BranchState::Invalid, s.skip(1)))
    } else {
        Option::None
    }
}

pub open spec fn dec_branches(s: Seq<char>, count: nat) -> Option<
    (Seq<(Seq<char>, BranchInfoView)>, Seq<char>),
>
    decreases count,
{
    if count == 0 {
        Option::Some((Seq::empty(), s))
    } else {
        match dec_str(s) {
            Option::Some((name, r1)) => match dec_opt_str(r1) {
                Option::Some((parent, r2)) => match dec_state(r2) {
                    Option::Some((st, r3)) => match dec_branches(r3, (count - 1) as nat) {
                        Option::Some((rest, r4)) => Option::Some(
                            (seq![(name, BranchInfoView { parent, state: st })] + rest, r4),
                        ),
                        Option::None => Option::None,
                    },
                    Option::None => Option::None,
                },
                Option::None => Option::None,
            },
            Option::None => Option::None,
        }
    }
}

/// What `decode` accepts: the document must parse in full and the decoded
/// branch table must satisfy the invariant.
pub open spec fn spec_decode(s: Seq<char>) -> Option<StateView> {
    match dec_str(s) {
        Option::Some((bp, r1)) => match dec_str(r1) {
            Option::Some((wp, r2)) => match dec_u64(r2) {
                Option::Some((epoch, r3)) => match dec_u64(r3) {
                    Option::Some((count, r4)) => match dec_branches(r4, count as nat) {
                        Option::Some((br, r5)) => if r5.len() == 0 && branches_wf(br) {
                            Option::Some(
                                StateView {
                                    base_path: bp,
                                    workspace_path: wp,
                                    branches: br,
                                    epoch,
                                },
                            )
                        } else {
                            Option::None
                        },
                        Option::None => Option::None,
                    },
                    Option::None => Option::None,
                },
                Option::None => Option::None,
            },
            Option::None => Option::None,
        },
        Option::None => Option::None,
    }
}

// ---- round trip: each decoder inverts its encoder ----

proof fn lemma_dec_u64_enc(n: u64, rest: Seq<char>)
    ensures
        dec_u64(enc_u64(n) + rest) == Option::Some((n, rest)),
{
    lemma_dec_digits_shape(n as nat, FIELD_WIDTH as nat);
    assert(u64::MAX < pow10(FIELD_WIDTH as nat)) by {
        reveal_with_fuel(pow10, 21);
    }
    lemma_dec_digits_value(n as nat, FIELD_WIDTH as nat);
    let s = enc_u64(n) + rest;
    assert(s.take(FIELD_WIDTH as int) =~= enc_u64(n));
    assert(s.skip(FIELD_WIDTH as int) =~= rest);
}

proof fn lemma_dec_str_enc(x: Seq<char>, rest: Seq<char>)
    requires
        x.len() <= u64::MAX,
    ensures
        dec_str(enc_str(x) + rest) == Option::Some((x, rest)),
{
    let n = x.len() as u64;
    let tail = seq![':'] + x + rest;
    assert(enc_str(x) + rest =~= enc_u64(n) + tail);
    lemma_dec_u64_enc(n, tail);
    assert(tail[0] == ':');
    assert(tail.subrange(1, 1 + n as int) =~= x);
    assert(tail.skip(1 + n as int) =~= rest);
}

proof fn lemma_dec_opt_enc(p: Option<Seq<char>>, rest: Seq<char>)
    requires
        match p {
            Option::Some(x) => x.len() <= u64::MAX,
            Option::None => true,
        },
    ensures
        dec_opt_str(enc_opt_str(p) + rest) == Option::Some((p, rest)),
{
    match p {
        Option::None => {
            let s = enc_opt_str(p) + rest;
            assert(s[0] == '-');
            assert(s.skip(1) =~= rest);
        },
        Option::Some(x) => {
            let s = enc_opt_str(p) + rest;
            assert(s[0] == '+');
            assert(s.skip(1) =~= enc_str(x) + rest);
            lemma_dec_str_enc(x, rest);
        },
    }
}

proof fn lemma_dec_state_enc(st: BranchState, rest: Seq<char>)
    ensures
        dec_state(seq![state_char(st)] + rest) == Option::Some((st, rest)),
{
    let s = seq![state_char(st)] + rest;
    assert(s[0] == state_char(st));
    assert(s.skip(1) =~= rest);
}

proof fn lemma_dec_branches_enc(br: Seq<(Seq<char>, BranchInfoView)>, rest: Seq<char>)
    requires
        forall|i: int| #![trigger br[i]] 0 <= i < br.len() ==> branch_fits(br[i]),
    ensures
        dec_branches(enc_branches(br) + rest, br.len() as nat) == Option::Some((br, rest)),
    decreases br.len(),
{
    if br.len() == 0 {
        assert(enc_branches(br) + rest =~= rest);
        assert(br =~= Seq::<(Seq<char>, BranchInfoView)>::empty());
    } else {
        let b0 = br[0];
        let tail_br = br.drop_first();
        let after_name = enc_opt_str(b0.1.parent) + (seq![state_char(b0.1.state)] + (enc_branches(
            tail_br,
        ) + rest));
        assert(enc_branches(br) + rest =~= enc_str(b0.0) + after_name);
        lemma_dec_str_enc(b0.0, after_name);
        let after_parent = seq![state_char(b0.1.state)] + (enc_branches(tail_br) + rest);
        lemma_dec_opt_enc(b0.1.parent, after_parent);
        lemma_dec_state_enc(b0.1.state, enc_branches(tail_br) + rest);
        assert forall|i: int| #![trigger tail_br[i]] 0 <= i < tail_br.len() implies branch_fits(
            tail_br[i],
        ) by {
            assert(tail_br[i] == br[i + 1]);
        }
        lemma_dec_branches_enc(tail_br, rest);
        assert(seq![(b0.0, BranchInfoView { parent: b0.1.parent, state: b0.1.state })] + tail_br
            =~= br);
    }
}

/// Round trip of persistence: the document written for any well-formed
/// aggregate decodes back to exactly that aggregate.
pub proof fn lemma_encode_decode(v: StateView)
    requires
        v.wf(),
        v.encodable(),
    ensures
        spec_decode(spec_encode(v)) == Option::Some(v),
{
    let cnt = v.branches.len() as u64;
    let r4 = enc_branches(v.branches);
    let r3 = enc_u64(cnt) + r4;
    let r2 = enc_u64(v.epoch) + r3;
    let r1 = enc_str(v.workspace_path) + r2;
    assert(spec_encode(v) =~= enc_str(v.base_path) + r1);
    lemma_dec_str_enc(v.base_path, r1);
    lemma_dec_str_enc(v.workspace_path, r2);
    lemma_dec_u64_enc(v.epoch, r3);
    lemma_dec_u64_enc(cnt, r4);
    assert(r4 =~= enc_branches(v.branches) + Seq::<char>::empty());
    lemma_dec_branches_enc(v.branches, Seq::<char>::empty());
}

// ---- encoding, executable ----

fn digit_str(d: u64) -> (r: &'static str)
    requires
        d < 10,
    ensures
        r@ == seq![digit_char(d as nat)],
{
    let r: &'static str = if d == 0 {
        "0"
    } else if d == 1 {
        "1"
    } else if d == 2 {
        "2"
    } else if d == 3 {
        "3"
    } else if d == 4 {
        "4"
    } else if d == 5 {
        "5"
    } else if d == 6 {
        "6"
    } else if d == 7 {
        "7"
    } else if d == 8 {
        "8"
    } else {
        "9"
    };
    proof {
        reveal_strlit("0");
        reveal_strlit("1");
        reveal_strlit("2");
        reveal_strlit("3");
        reveal_strlit("4");
        reveal_strlit("5");
        reveal_strlit("6");
        reveal_strlit("7");
        reveal_strlit("8");
        reveal_strlit("9");
        assert(r@ =~= seq![digit_char(d as nat)]);
    }
    r
}

/// `n` in decimal, `w` digits wide, appended to `out`.
fn push_digits(out: &mut String, n: u64, w: usize)
    ensures
        final(out)@ == old(out)@ + dec_digits(n as nat, w as nat),
    decreases w,
{
    if w == 0 {
        proof {
            assert(out@ =~= old(out)@ + dec_digits(n as nat, 0));
        }
    } else {
        push_digits(out, n / 10, w - 1);
        out.append(digit_str(n % 10));
        proof {
            assert(out@ =~= old(out)@ + dec_digits(n as nat, w as nat));
        }
    }
}

/// `enc_str(s@)` appended to `out`.
fn push_str_field(out: &mut String, s: &str)
    ensures
        final(out)@ == old(out)@ + enc_str(s@),
        s@.len() <= u64::MAX,
{
    let n = s.unicode_len();
    push_digits(out, n as u64, FIELD_WIDTH);
    out.append(":");
    out.append(s);
    proof {
        reveal_strlit(":");
        assert(out@ =~= old(out)@ + enc_str(s@));
    }
}

/// `enc_branches` of the table from index `i` on, appended to `out`.
fn push_branches(out: &mut String, branches: &Vec<(String, BranchInfo)>, i: usize)
    requires
        i <= branches@.len(),
    ensures
        final(out)@ == old(out)@ + enc_branches(br_view(branches@).skip(i as int)),
        forall|j: int|
            #![trigger br_view(branches@)[j]]
            i <= j < branches@.len() ==> branch_fits(br_view(branches@)[j]),
    decreases branches@.len() - i,
{
    let ghost bv = br_view(branches@);
    if i < branches.len() {
        push_str_field(out, branches[i].0.as_str());
        match &branches[i].1.parent {
            Option::Some(p) => {
                out.append("+");
                push_str_field(out, p.as_str());
            },
            Option::None => {
                out.append("-");
            },
        }
        match branches[i].1.state {
            BranchState::Active => out.append("a"),
            BranchState::Committed => out.append("c"),
            BranchState::Invalid => out.append("i"),
        }
        proof {
            reveal_strlit("+");
            reveal_strlit("-");
            reveal_strlit("a");
            reveal_strlit("c");
            reveal_strlit("i");
            assert(out@ =~= old(out)@ + enc_branch(bv[i as int]));
            assert(branch_fits(bv[i as int]));
        }
        push_branches(out, branches, i + 1);
        proof {
            assert(bv.skip(i as int).drop_first() =~= bv.skip(i as int + 1));
            assert(bv.skip(i as int)[0] == bv[i as int]);
            assert(out@ =~= old(out)@ + enc_branches(bv.skip(i as int)));
        }
    } else {
        proof {
            assert(bv.skip(i as int) =~= Seq::<(Seq<char>, BranchInfoView)>::empty());
            assert(out@ =~= old(out)@ + enc_branches(bv.skip(i as int)));
        }
    }
}

impl State {
    /// The state document for this aggregate, as one string. Together with
    /// `lemma_encode_decode`, what is saved here is exactly what `decode`
    /// returns.
    pub fn encode(&self) -> (r: String)
        ensures
            r@ == spec_encode(self@),
            self@.encodable(),
    {
        let mut out = String::new();
        push_str_field(&mut out, self.base_path.as_str());
        push_str_field(&mut out, self.workspace_path.as_str());
        push_digits(&mut out, self.epoch, FIELD_WIDTH);
        push_digits(&mut out, self.branches.len() as u64, FIELD_WIDTH);
        push_branches(&mut out, &self.branches, 0);
        proof {
            assert(br_view(self.branches@).skip(0) =~= self@.branches);
            assert(out@ =~= spec_encode(self@));
        }
        out
    }
}

// ---- decoding, executable ----

fn digit_of(c: char) -> (r: Option<u64>)
    ensures
        match r {
            Some(d) => is_digit(c) && d < 10 && d as nat == digit_val(c),
            None => !is_digit(c),
        },
{
    if c == '0' {
        Some(0)
    } else if c == '1' {
        Some(1)
    } else if c == '2' {
        Some(2)
    } else if c == '3' {
        Some(3)
    } else if c == '4' {
        Some(4)
    } else if c == '5' {
        Some(5)
    } else if c == '6' {
        Some(6)
    } else if c == '7' {
        Some(7)
    } else if c == '8' {
        Some(8)
    } else if c == '9' {
        Some(9)
    } else {
        None
    }
}

/// One fixed-width decimal field, read at position `i`.
fn parse_u64(s: &str, i: usize) -> (r: Option<(u64, usize)>)
    requires
        i <= s@.len(),
    ensures
        match r {
            Some((n, j)) => dec_u64(s@.skip(i as int)) == Option::Some((n, s@.skip(j as int)))
                && i <= j <= s@.len(),
            None => dec_u64(s@.skip(i as int)) is None,
        },
{
    let len = s.unicode_len();
    if len - i < FIELD_WIDTH {
        return None;
    }
    let ghost t = s@.skip(i as int).take(FIELD_WIDTH as int);
    let mut val: u64 = 0;
    let mut j: usize = 0;
    while j < FIELD_WIDTH
        invariant
            j <= FIELD_WIDTH,
            i + FIELD_WIDTH <= len,
            len == s@.len(),
            t == s@.skip(i as int).take(FIELD_WIDTH as int),
            t.len() == FIELD_WIDTH,
            all_digits(t.take(j as int)),
            val as nat == dec_value(t.take(j as int)),
        decreases FIELD_WIDTH - j,
    {
        let c = s.get_char(i + j);
        proof {
            assert(t[j as int] == s@[i + j]);
        }
        match digit_of(c) {
            Some(d) => {
                proof {
                    assert(t.take(j as int + 1).drop_last() =~= t.take(j as int));
                    assert(t.take(j as int + 1).last() == t[j as int]);
                    assert(dec_value(t.take(j as int + 1)) == (val as nat) * 10 + (d as nat));
                }
                if val > (u64::MAX - d) / 10 {
                    proof {
                        lemma_dec_value_prefix(t, j as int + 1);
                        assert(dec_value(t) > u64::MAX);
                    }
                    return None;
                }
                val = val * 10 + d;
                proof {
                    assert(all_digits(t.take(j as int + 1)));
                }
            },
            None => {
                proof {
                    assert(!all_digits(t));
                }
                return None;
            },
        }
        j += 1;
    }
    proof {
        assert(t.take(FIELD_WIDTH as int) =~= t);
        assert(s@.skip(i as int).skip(FIELD_WIDTH as int) =~= s@.skip(i as int + FIELD_WIDTH as int));
    }
    Some((val, i + FIELD_WIDTH))
}

/// One length-prefixed string field, read at position `i`.
fn parse_str_field<'a>(s: &'a str, i: usize) -> (r: Option<(&'a str, usize)>)
    requires
        i <= s@.len(),
    ensures
        match r {
            Some((x, j)) => {
                &&& dec_str(s@.skip(i as int)) == Option::Some((x@, s@.skip(j as int)))
                &&& i <= j <= s@.len()
            },
            None => dec_str(s@.skip(i as int)) is None,
        },
{
    let (n, j) = match parse_u64(s, i) {
        Some(p) => p,
        None => {
            return None;
        },
    };
    let len = s.unicode_len();
    if j == len {
        return None;
    }
    if s.get_char(j) != ':' {
        proof {
            assert(s@.skip(j as int)[0] == s@[j as int]);
        }
        return None;
    }
    proof {
        assert(s@.skip(j as int)[0] == s@[j as int]);
    }
    let avail = len - j - 1;
    if n > avail as u64 {
        return None;
    }
    let nn = n as usize;
    let x = s.substring_char(j + 1, j + 1 + nn);
    proof {
        let rem = s@.skip(j as int);
        assert(x@ =~= rem.subrange(1, 1 + n as int));
        assert(s@.skip(j as int + 1 + nn as int) =~= rem.skip(1 + n as int));
    }
    Some((x, j + 1 + nn))
}

/// One optional parent field, read at position `i`.
fn parse_opt_field<'a>(s: &'a str, i: usize) -> (r: Option<(Option<&'a str>, usize)>)
    requires
        i <= s@.len(),
    ensures
        match r {
            Some((p, j)) => {
                &&& i <= j <= s@.len()
                &&& match p {
                    Some(x) => dec_opt_str(s@.skip(i as int)) == Option::Some(
                        (Option::Some(x@), s@.skip(j as int)),
                    ),
                    None => dec_opt_str(s@.skip(i as int)) == Option::Some(
                        (Option::None::<Seq<char>>, s@.skip(j as int)),
                    ),
                }
            },
            None => dec_opt_str(s@.skip(i as int)) is None,
        },
{
    let len = s.unicode_len();
    if i == len {
        return None;
    }
    let c = s.get_char(i);
    proof {
        assert(s@.skip(i as int)[0] == s@[i as int]);
    }
    if c == '-' {
        proof {
            assert(s@.skip(i as int).skip(1) =~= s@.skip(i as int + 1));
        }
        Some((None, i + 1))
    } else if c == '+' {
        proof {
            assert(s@.skip(i as int).skip(1) =~= s@.skip(i as int + 1));
        }
        match parse_str_field(s, i + 1) {
            Some((x, j)) => Some((Some(x), j)),
            None => None,
        }
    } else {
        None
    }
}

/// One lifecycle-state field, read at position `i`.
fn parse_state_field(s: &str, i: usize) -> (r: Option<(BranchState, usize)>)
    requires
        i <= s@.len(),
    ensures
        match r {
            Some((st, j)) => dec_state(s@.skip(i as int)) == Option::Some((st, s@.skip(j as int)))
                && i <= j <= s@.len(),
            None => dec_state(s@.skip(i as int)) is None,
        },
{
    let len = s.unicode_len();
    if i == len {
        return None;
    }
    let c = s.get_char(i);
    proof {
        assert(s@.skip(i as int)[0] == s@[i as int]);
        assert(s@.skip(i as int).skip(1) =~= s@.skip(i as int + 1));
    }
    if c == 'a' {
        Some((BranchState::Active, i + 1))
    } else if c == 'c' {
        Some((BranchState::Committed, i + 1))
    } else if c == 'i' {
        Some((BranchState::Invalid, i + 1))
    } else {
        None
    }
}

/// `count` branch entries, read at position `i`.
fn parse_branches(s: &str, i: usize, count: u64) -> (r: Option<
    (Vec<(String, BranchInfo)>, usize),
>)
    requires
        i <= s@.len(),
    ensures
        match r {
            Some((v, j)) => dec_branches(s@.skip(i as int), count as nat) == Option::Some(
                (br_view(v@), s@.skip(j as int)),
            ) && i <= j <= s@.len(),
            None => dec_branches(s@.skip(i as int), count as nat) is None,
        },
    decreases count,
{
    if count == 0 {
        let v: Vec<(String, BranchInfo)> = Vec::new();
        proof {
            assert(br_view(v@) =~= Seq::<(Seq<char>, BranchInfoView)>::empty());
        }
        return Some((v, i));
    }
    let (name, j1) = match parse_str_field(s, i) {
        Some(p) => p,
        None => {
            return None;
        },
    };
    let (par, j2) = match parse_opt_field(s, j1) {
        Some(p) => p,
        None => {
            return None;
        },
    };
    let (st, j3) = match parse_state_field(s, j2) {
        Some(p) => p,
        None => {
            return None;
        },
    };
    let (mut v, j4) = match parse_branches(s, j3, count - 1) {
        Some(p) => p,
        None => {
            return None;
        },
    };
    let ghost v0 = v@;
    let parent: Option<String> = match par {
        Some(p) => Some(p.to_owned()),
        None => None,
    };
    let info = BranchInfo { parent, state: st };
    v.insert(0, (name.to_owned(), info));
    proof {
        let pv: Option<Seq<char>> = match par {
            Some(p) => Option::Some(p@),
            None => Option::None,
        };
        assert(br_view(v@) =~= seq![(name@, BranchInfoView { parent: pv, state: st })] + br_view(
            v0,
        ));
    }
    Some((v, j4))
}

impl State {
    /// Parse a state document. The aggregate comes back only when the
    /// document parses in full and the decoded branch table satisfies the
    /// invariant; any torn, truncated or otherwise malformed document is
    /// refused whole.
    pub fn decode(doc: &str) -> (r: Option<State>)
        ensures
            match r {
                Some(st) => spec_decode(doc@) == Option::Some(st@) && st@.wf(),
                None => spec_decode(doc@) is None,
            },
    {
        proof {
            assert(doc@.skip(0) =~= doc@);
        }
        let (bp, j1) = match parse_str_field(doc, 0) {
            Some(p) => p,
            None => {
                return None;
            },
        };
        let (wp, j2) = match parse_str_field(doc, j1) {
            Some(p) => p,
            None => {
                return None;
            },
        };
        let (epoch, j3) = match parse_u64(doc, j2) {
            Some(p) => p,
            None => {
                return None;
            },
        };
        let (count, j4) = match parse_u64(doc, j3) {
            Some(p) => p,
            None => {
                return None;
            },
        };
        let (branches, j5) = match parse_branches(doc, j4, count) {
            Some(p) => p,
            None => {
                return None;
            },
        };
        if j5 != doc.unicode_len() {
            return None;
        }
        proof {
            assert(doc@.skip(j5 as int).len() == 0);
        }
        let st = State { base_path: bp.to_owned(), workspace_path: wp.to_owned(), branches, epoch };
        if st.is_wf() {
            Some(st)
        } else {
            None
        }
    }
}

} // verus!
