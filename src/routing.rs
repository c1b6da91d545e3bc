//! Source routes: seventeen address slots, the forward path to the final
//! destination, a separator, and the return path travelled so far.
use vstd::prelude::*;
use crate::address::{self, decode_spec};

verus! {

/// Token between the forward and the return path; never a real address.
pub const ADDRESS_SEPARATOR: u32 = 0x0;

/// Address to broadcast to any link.
pub const BROADCAST_ADDRESS: u32 = 0xFFFF_FFFF;

/// Number of slots in a route.
pub const MAX_LENGTH: usize = 17;

/// Route of a frame: up to sixteen callsigns and a separator.
pub type Route = [u32; 17];

/// Why a route could not be used.
#[derive(Debug, PartialEq, Eq, Structural)]
pub enum ParseError {
    /// The route has no separator where one is needed.
    BadFormat,
}

/// Index of the first separator in `s`, or `s.len()` where there is none.
pub open spec fn find_sep(s: Seq<u32>) -> int
    decreases s.len(),
{
    if s.len() == 0 {
        0
    } else if s[0] == ADDRESS_SEPARATOR {
        0
    } else {
        1 + find_sep(s.drop_first())
    }
}

/// The last address of `s` that is not a separator, or the separator.
pub open spec fn last_address(s: Seq<u32>) -> u32
    decreases s.len(),
{
    if s.len() == 0 {
        ADDRESS_SEPARATOR
    } else if s.last() != ADDRESS_SEPARATOR {
        s.last()
    } else {
        last_address(s.drop_last())
    }
}

/// `s` without its trailing separators.
pub open spec fn strip_trailing(s: Seq<u32>) -> Seq<u32>
    decreases s.len(),
{
    if s.len() == 0 {
        s
    } else if s.last() != ADDRESS_SEPARATOR {
        s
    } else {
        strip_trailing(s.drop_last())
    }
}

/// `s` followed by separators up to the length of a route.
pub open spec fn pad_route(s: Seq<u32>) -> Seq<u32> {
    s + Seq::new((17 - s.len()) as nat, |i: int| ADDRESS_SEPARATOR)
}

/// What `reverse` gives. A route is `forward . [SEP] . return`, split at its
/// first separator and with its trailing separators left off the return
/// path; the reverse is `reverse(return) . [SEP] . reverse(forward)`, padded
/// with separators. A route without a separator is read backwards whole.
pub open spec fn reverse_spec(s: Seq<u32>) -> Seq<u32> {
    let k = find_sep(s);
    if k >= s.len() {
        s.reverse()
    } else {
        pad_route(
            strip_trailing(s.skip(k + 1)).reverse() + seq![ADDRESS_SEPARATOR] + s.take(k).reverse(),
        )
    }
}

/// What a successful `advance` gives: the next hop is consumed, the path up to
/// the separator moves down by one, and `this_addr` takes the old separator slot.
pub open spec fn advanced(s: Seq<u32>, this_addr: u32) -> Seq<u32> {
    let k = find_sep(s);
    Seq::new(
        s.len(),
        |i: int|
            if i < k {
                s[i + 1]
            } else if i == k {
                this_addr
            } else {
                s[i]
            },
    )
}

/// Whether `advance` can move the route on: its first separator stands
/// neither first nor last.
pub open spec fn can_advance(s: Seq<u32>) -> bool {
    let k = find_sep(s);
    0 < k < s.len() - 1
}

proof fn lemma_find_sep(s: Seq<u32>)
    ensures
        0 <= find_sep(s) <= s.len(),
        find_sep(s) < s.len() ==> s[find_sep(s)] == ADDRESS_SEPARATOR,
        forall|i: int| 0 <= i < find_sep(s) ==> s[i] != ADDRESS_SEPARATOR,
    decreases s.len(),
{
    if s.len() > 0 && s[0] != ADDRESS_SEPARATOR {
        lemma_find_sep(s.drop_first());
        assert forall|i: int| 0 <= i < find_sep(s) implies s[i] != ADDRESS_SEPARATOR by {
            if i > 0 {
                assert(s[i] == s.drop_first()[i - 1]);
            }
        }
    }
}

/// Whether this station is the current hop of `route`.
pub fn is_destination(route: &Route, this_addr: u32) -> (r: bool)
    ensures
        r == (route@[0] == this_addr || route@[0] == BROADCAST_ADDRESS),
{
    route[0] == this_addr || route[0] == BROADCAST_ADDRESS
}

/// Whether the current hop of `route` is the broadcast address.
pub fn is_broadcast(route: &Route) -> (r: bool)
    ensures
        r == (route@[0] == BROADCAST_ADDRESS),
{
    route[0] == BROADCAST_ADDRESS
}

/// Whether a frame on `route` should be retried: its current hop is a single
/// station, not the broadcast address.
pub fn should_retry(route: &Route) -> (r: bool)
    ensures
        r == (route@[0] != BROADCAST_ADDRESS),
{
    route[0] != BROADCAST_ADDRESS
}

/// Whether the current hop is the last one of the forward path.
pub fn final_addr(route: &Route) -> (r: bool)
    ensures
        r == (route@[1] == ADDRESS_SEPARATOR),
{
    route[1] == ADDRESS_SEPARATOR
}

/// The station that sent the frame: the last address that is not a separator.
pub fn get_source(route: &Route) -> (r: u32)
    ensures
        r == last_address(route@),
{
    let mut i: usize = 17;
    assert(route@.subrange(0, 17) =~= route@);
    while i > 0
        invariant
            i <= 17,
            route@.len() == 17,
            last_address(route@) == last_address(route@.subrange(0, i as int)),
        decreases i,
    {
        let a = route[i - 1];
        proof {
            assert(route@.subrange(0, i as int).drop_last() =~= route@.subrange(0, i - 1));
        }
        if a != ADDRESS_SEPARATOR {
            return a;
        }
        i = i - 1;
    }
    ADDRESS_SEPARATOR
}

/// Moves the route on by one hop: the current hop is consumed and
/// `this_addr` is appended to the return path. Fails where the route has no
/// separator, or has it first or last.
pub fn advance(route: &Route, this_addr: u32) -> (r: Result<Route, ParseError>)
    ensures
        r is Ok <==> can_advance(route@),
        r matches Ok(n) ==> n@ == advanced(route@, this_addr),
{
    proof {
        lemma_find_sep(route@);
    }
    let mut k: usize = 0;
    while k < 17 && route[k] != ADDRESS_SEPARATOR
        invariant
            k <= 17,
            route@.len() == 17,
            k <= find_sep(route@),
            find_sep(route@) <= 17,
            find_sep(route@) < 17 ==> route@[find_sep(route@)] == ADDRESS_SEPARATOR,
        decreases 17 - k,
    {
        k = k + 1;
    }
    if k == 0 || k >= 16 {
        return Err(ParseError::BadFormat);
    }
    let mut new_route: Route = *route;
    let mut i: usize = 0;
    while i < k
        invariant
            0 < k < 16,
            k == find_sep(route@),
            i <= k,
            new_route@.len() == 17,
            forall|j: int| 0 <= j < i ==> new_route@[j] == route@[j + 1],
            forall|j: int| i <= j < 17 ==> new_route@[j] == route@[j],
        decreases k - i,
    {
        new_route[i] = new_route[i + 1];
        i = i + 1;
    }
    new_route[k] = this_addr;
    assert(new_route@ =~= advanced(route@, this_addr));
    Ok(new_route)
}

/// The route an acknowledgement travels: the return path read backwards, the
/// separator, then the forward path read backwards, padded with separators.
/// An empty return path leaves the separator first. A route without a
/// separator is read backwards whole.
pub fn reverse(route: &Route) -> (r: Route)
    ensures
        r@ == reverse_spec(route@),
{
    proof {
        lemma_find_sep(route@);
    }
    let mut k: usize = 0;
    while k < 17 && route[k] != ADDRESS_SEPARATOR
        invariant
            k <= 17,
            route@.len() == 17,
            k <= find_sep(route@),
            find_sep(route@) <= 17,
            find_sep(route@) < 17 ==> route@[find_sep(route@)] == ADDRESS_SEPARATOR,
        decreases 17 - k,
    {
        k = k + 1;
    }
    let mut m: usize = 17;
    let ghost ret = route@.skip(k + 1);
    if k < 17 {
        assert(ret =~= route@.subrange(k + 1, 17));
    }
    while m > k + 1 && route[m - 1] == ADDRESS_SEPARATOR
        invariant
            k <= 17,
            m <= 17,
            k < 17 ==> k + 1 <= m <= 17,
            k == 17 ==> m == 17,
            route@.len() == 17,
            k < 17 ==> strip_trailing(ret) == strip_trailing(route@.subrange(k + 1, m as int)),
        decreases m,
    {
        assert(route@.subrange(k + 1, m as int).drop_last() =~= route@.subrange(k + 1, m - 1));
        m = m - 1;
    }
    let mut new_route: Route = [ADDRESS_SEPARATOR; 17];
    let mut j: usize = 0;
    while j < m
        invariant
            m <= 17,
            j <= m,
            route@.len() == 17,
            new_route@.len() == 17,
            forall|i: int| 0 <= i < j ==> new_route@[i] == route@[m - 1 - i],
            forall|i: int| j <= i < 17 ==> new_route@[i] == ADDRESS_SEPARATOR,
        decreases m - j,
    {
        new_route[j] = route[m - 1 - j];
        j = j + 1;
    }
    proof {
        if k < 17 {
            let kept = route@.subrange(k + 1, m as int);
            if m > k + 1 {
                assert(kept.last() != ADDRESS_SEPARATOR);
            } else {
                assert(kept =~= Seq::<u32>::empty());
            }
            assert(strip_trailing(ret) == kept);
            let body = kept.reverse() + seq![ADDRESS_SEPARATOR] + route@.take(k as int).reverse();
            assert(body.len() == m);
            assert forall|i: int| 0 <= i < m implies #[trigger] body[i] == route@[m - 1 - i] by {
                if i < m - k - 1 {
                    assert(body[i] == kept.reverse()[i]);
                } else if i == m - k - 1 {
                    assert(body[i] == ADDRESS_SEPARATOR);
                } else {
                    assert(body[i] == route@.take(k as int).reverse()[i - (m - k)]);
                }
            }
        }
    }
    assert(new_route@ =~= reverse_spec(route@));
    new_route
}

/// A route from up to seventeen addresses, padded with separators.
pub fn gen_route(route: &[u32]) -> (r: Route)
    requires
        route@.len() <= 17,
    ensures
        r@ == pad_route(route@),
{
    let mut final_route: Route = [ADDRESS_SEPARATOR; 17];
    let mut i: usize = 0;
    while i < route.len()
        invariant
            i <= route@.len() <= 17,
            final_route@.len() == 17,
            forall|j: int| 0 <= j < i ==> final_route@[j] == route@[j],
            forall|j: int| i <= j < 17 ==> final_route@[j] == ADDRESS_SEPARATOR,
        decreases route@.len() - i,
    {
        final_route[i] = route[i];
        i = i + 1;
    }
    assert(final_route@ =~= pad_route(route@));
    final_route
}

/// The route after `n` advances by `this_addr`, if each succeeds.
pub open spec fn advance_n(s: Seq<u32>, this_addr: u32, n: nat) -> Option<Seq<u32>>
    decreases n,
{
    if n == 0 {
        Some(s)
    } else {
        match advance_n(s, this_addr, (n - 1) as nat) {
            Some(t) => if can_advance(t) {
                Some(advanced(t, this_addr))
            } else {
                None
            },
            None => None,
        }
    }
}

/// Advancing moves the separator down by one slot and puts this station in
/// the slot it left.
pub proof fn lemma_advance_moves_separator(s: Seq<u32>, this_addr: u32)
    requires
        s.len() == 17,
        can_advance(s),
    ensures
        find_sep(advanced(s, this_addr)) == find_sep(s) - 1,
        advanced(s, this_addr)[find_sep(s)] == this_addr,
        advanced(s, this_addr).len() == 17,
{
    let t = advanced(s, this_addr);
    let k = find_sep(s);
    lemma_find_sep(s);
    lemma_find_sep(t);
    assert(t[k - 1] == ADDRESS_SEPARATOR);
    if find_sep(t) < k - 1 {
        assert(t[find_sep(t)] == s[find_sep(t) + 1]);
    }
}

proof fn lemma_advance_n_steps(s: Seq<u32>, this_addr: u32, j: nat)
    requires
        s.len() == 17,
        0 < find_sep(s) < 16,
        j <= find_sep(s),
    ensures
        advance_n(s, this_addr, j) matches Some(t) && t.len() == 17 && find_sep(t) == find_sep(s)
            - j,
    decreases j,
{
    if j > 0 {
        lemma_advance_n_steps(s, this_addr, (j - 1) as nat);
        let t = advance_n(s, this_addr, (j - 1) as nat).unwrap();
        lemma_advance_moves_separator(t, this_addr);
    }
}

/// From a route whose separator stands in slot `k` (between the first and the
/// last), `k` advances succeed one after another; after `k - 1` of them the
/// current hop is the final one, and one more advance after the `k`th fails.
pub proof fn lemma_advance_until_final(s: Seq<u32>, this_addr: u32)
    requires
        s.len() == 17,
        0 < find_sep(s) < 16,
    ensures
        forall|j: nat| j <= find_sep(s) ==> #[trigger] advance_n(s, this_addr, j) is Some,
        advance_n(s, this_addr, (find_sep(s) - 1) as nat).unwrap()[1] == ADDRESS_SEPARATOR,
        advance_n(s, this_addr, (find_sep(s) + 1) as nat) is None,
{
    let k = find_sep(s);
    assert forall|j: nat| j <= k implies #[trigger] advance_n(s, this_addr, j) is Some by {
        lemma_advance_n_steps(s, this_addr, j);
    }
    lemma_advance_n_steps(s, this_addr, (k - 1) as nat);
    lemma_find_sep(advance_n(s, this_addr, (k - 1) as nat).unwrap());
    lemma_advance_n_steps(s, this_addr, k as nat);
}

/// What `format_route` writes from slot `i` on: `past` says a separator came
/// before, `started` that an address was written.
pub open spec fn format_from(route: Seq<u32>, i: int, past: bool, started: bool) -> Seq<char>
    decreases route.len() - i,
{
    if i >= route.len() || i < 0 {
        seq![]
    } else if route[i] == ADDRESS_SEPARATOR {
        format_from(route, i + 1, true, started)
    } else {
        (if !started {
            Seq::<char>::empty()
        } else if past {
            seq![' ', '-', '>', ' ']
        } else {
            seq![' ', '<', '-', ' ']
        }) + decode_spec(route[i]) + format_from(route, i + 1, past, true)
    }
}

/// A route as text: its addresses without the separators, the forward path
/// joined by ` <- ` and the return path by ` -> `.
pub fn format_route(route: &Route) -> (r: String)
    ensures
        r@ == format_from(route@, 0, false, false),
{
    let mut out = String::new();
    let mut past = false;
    let mut started = false;
    let mut i: usize = 0;
    while i < 17
        invariant
            i <= 17,
            route@.len() == 17,
            format_from(route@, 0, false, false) == out@ + format_from(route@, i as int, past, started),
        decreases 17 - i,
    {
        let a = route[i];
        if a == ADDRESS_SEPARATOR {
            past = true;
        } else {
            let ghost before = out@;
            if started {
                if past {
                    address::push_char(&mut out, ' ');
                    address::push_char(&mut out, '-');
                    address::push_char(&mut out, '>');
                    address::push_char(&mut out, ' ');
                    assert(out@ =~= before + seq![' ', '-', '>', ' ']);
                } else {
                    address::push_char(&mut out, ' ');
                    address::push_char(&mut out, '<');
                    address::push_char(&mut out, '-');
                    address::push_char(&mut out, ' ');
                    assert(out@ =~= before + seq![' ', '<', '-', ' ']);
                }
            }
            let ghost mid = out@;
            let chars = address::decode(a);
            let mut k: usize = 0;
            while k < 7
                invariant
                    k <= 7,
                    chars@ == decode_spec(a),
                    out@ == mid + chars@.take(k as int),
                decreases 7 - k,
            {
                address::push_char(&mut out, chars[k]);
                assert(chars@.take(k + 1) =~= chars@.take(k as int).push(chars@[k as int]));
                k = k + 1;
            }
            assert(chars@.take(7) =~= chars@);
            let ghost sep_text = if !started {
                Seq::<char>::empty()
            } else if past {
                seq![' ', '-', '>', ' ']
            } else {
                seq![' ', '<', '-', ' ']
            };
            assert(mid == before + sep_text);
            assert(format_from(route@, i as int, past, started) == sep_text + decode_spec(a)
                + format_from(route@, i + 1, past, true));
            assert(out@ + format_from(route@, i + 1, past, true) =~= before + (sep_text
                + decode_spec(a) + format_from(route@, i + 1, past, true)));
            started = true;
        }
        i = i + 1;
    }
    assert(out@ + Seq::<char>::empty() =~= out@);
    out
}

} // verus!
