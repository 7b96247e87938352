//! Making sense of a log of traffic between hosts.

use crate::text;
use crate::text::push_decimal_u128;
use vstd::prelude::*;

verus! {

/// One line of the log: what two hosts have sent each other so far, as text with a unit.
#[derive(Debug)]
pub struct LogLine {
    pub a: String,
    pub b: String,
    pub a_to_b: String,
    pub b_to_a: String,
}

/// The log up to its last complete line, in brackets: a list in JSON.
pub open spec fn framed(log: Seq<char>, last: int) -> Seq<char> {
    seq!['['] + log.take(last + 1) + seq![']']
}

/// The last closing brace is at `last`.
pub open spec fn closes_at(log: Seq<char>, last: int) -> bool {
    &&& 0 <= last < log.len()
    &&& log[last] == '}'
    &&& forall|i: int| last < i < log.len() ==> log[i] != '}'
}

/// Makes a list of the log's lines. What comes after the last closing brace is an incomplete line
/// and is left out. Without a closing brace there is no list.
pub fn frame_log(log: &str) -> (r: Option<String>)
    ensures
        r is None <==> !log@.contains('}'),
        r is Some ==> exists|last: int| #[trigger]
            closes_at(log@, last) && r->Some_0@ == framed(log@, last),
{
    let chars = chars_of(log);
    let mut end: usize = chars.len();
    while end > 0 && chars[end - 1] != '}'
        invariant
            end <= chars@.len(),
            forall|i: int| end <= i < chars@.len() ==> chars@[i] != '}',
        decreases end,
    {
        end = end - 1;
    }
    if end == 0 {
        return None;
    }
    assert(closes_at(log@, end - 1));
    let mut text: String = String::new();
    text.push('[');
    let mut i: usize = 0;
    while i < end
        invariant
            i <= end <= chars@.len(),
            text@ == seq!['['] + chars@.take(i as int),
        decreases end - i,
    {
        text.push(chars[i]);
        i = i + 1;
        assert(text@ =~= seq!['['] + chars@.take(i as int));
    }
    text.push(']');
    assert(text@ =~= framed(log@, end - 1));
    Some(text)
}

/// The lines are about the same two hosts.
pub open spec fn same_hosts(x: LogLine, y: LogLine) -> bool {
    x.a@ == y.a@ && x.b@ == y.b@
}

/// No later line is about the same two hosts.
pub open spec fn is_latest(lines: Seq<LogLine>, i: int) -> bool {
    &&& 0 <= i < lines.len()
    &&& forall|j: int| i < j < lines.len() ==> !same_hosts(#[trigger] lines[j], lines[i])
}

/// The positions of the latest lines from `from` on, the last one first.
pub open spec fn are_latest(lines: Seq<LogLine>, from: int, picks: Seq<int>) -> bool {
    &&& forall|k: int| 0 <= k < picks.len() ==> from <= #[trigger] picks[k] < lines.len()
    &&& forall|k: int| 0 <= k < picks.len() ==> is_latest(lines, #[trigger] picks[k])
    &&& forall|k: int, l: int| 0 <= k < l < picks.len() ==> picks[k] > picks[l]
    &&& forall|i: int| from <= i < lines.len() && #[trigger] is_latest(lines, i) ==> picks.contains(i)
}

fn same_text(x: &String, y: &String) -> (r: bool)
    ensures
        r == (x@ == y@),
{
    *x == *y
}

/// The lines of a log that are the latest about their two hosts. The last of the log comes first.
pub fn unique_latest_logs(lines: Vec<LogLine>) -> (r: Vec<LogLine>)
    ensures
        exists|picks: Seq<int>| #[trigger]
            are_latest(lines@, 0, picks) && r@ == Seq::new(
                picks.len(),
                |k: int| lines@[picks[k]],
            ),
{
    let ghost all = lines@;
    let mut rest: Vec<LogLine> = lines;
    let mut latest: Vec<LogLine> = Vec::new();
    let ghost mut picks: Seq<int> = Seq::empty();
    while rest.len() > 0
        invariant
            rest@ == all.take(rest@.len() as int),
            rest@.len() <= all.len(),
            are_latest(all, rest@.len() as int, picks),
            latest@ == Seq::new(picks.len(), |k: int| all[picks[k]]),
        decreases rest@.len(),
    {
        let ghost at = rest@.len() - 1;
        let popped = rest.pop();
        assert(rest@ =~= all.take(at));
        if let Some(line) = popped {
            assert(line == all[at]);
            let mut seen = false;
            let mut k: usize = 0;
            while k < latest.len()
                invariant
                    k <= latest@.len(),
                    latest@ == Seq::new(picks.len(), |k: int| all[picks[k]]),
                    seen <==> exists|l: int| 0 <= l < k && same_hosts(all[#[trigger] picks[l]], line),
                decreases latest@.len() - k,
            {
                if same_text(&latest[k].a, &line.a) && same_text(&latest[k].b, &line.b) {
                    assert(same_hosts(all[picks[k as int]], line));
                    seen = true;
                }
                k = k + 1;
            }
            let ghost before = picks;
            proof {
                lemma_pick(all, at, before, seen);
            }
            if !seen {
                latest.push(line);
                proof {
                    picks = picks.push(at);
                }
                assert(latest@ =~= Seq::new(picks.len(), |k: int| all[picks[k]]));
            }
        }
    }
    latest
}

/// One more line counts just when no pick is about the same hosts.
proof fn lemma_pick(all: Seq<LogLine>, at: int, picks: Seq<int>, seen: bool)
    requires
        0 <= at < all.len(),
        are_latest(all, at + 1, picks),
        seen <==> exists|l: int| 0 <= l < picks.len() && same_hosts(all[#[trigger] picks[l]], all[at]),
    ensures
        seen ==> are_latest(all, at, picks),
        !seen ==> are_latest(all, at, picks.push(at)),
{
    if seen {
        let l = choose|l: int|
            0 <= l < picks.len() && same_hosts(all[#[trigger] picks[l]], all[at]);
        assert(!is_latest(all, at)) by {
            assert(same_hosts(all[picks[l]], all[at]));
        }
    } else {
        assert(is_latest(all, at)) by {
            assert forall|j: int| at < j < all.len() implies !same_hosts(#[trigger] all[j], all[at])
                by {
                if same_hosts(all[j], all[at]) {
                    let last = lemma_last_about(all, j);
                    assert(is_latest(all, last));
                    assert(picks.contains(last));
                    let l = choose|l: int| 0 <= l < picks.len() && picks[l] == last;
                    assert(same_hosts(all[picks[l]], all[at]));
                }
            }
        }
        let new_picks = picks.push(at);
        assert forall|i: int| at <= i < all.len() && #[trigger] is_latest(all, i) implies new_picks.contains(
        i) by {
            if i == at {
                assert(new_picks[picks.len() as int] == at);
            } else {
                assert(picks.contains(i));
                let l = choose|l: int| 0 <= l < picks.len() && picks[l] == i;
                assert(new_picks[l] == i);
            }
        }
    }
}

/// The last line about the hosts of line `j`.
proof fn lemma_last_about(all: Seq<LogLine>, j: int) -> (r: int)
    requires
        0 <= j < all.len(),
    ensures
        j <= r < all.len(),
        same_hosts(all[r], all[j]),
        is_latest(all, r),
    decreases all.len() - j,
{
    if is_latest(all, j) {
        j
    } else {
        let k = choose|k: int| j < k < all.len() && same_hosts(#[trigger] all[k], all[j]);
        lemma_last_about(all, k)
    }
}

/// All occurrences of `from`, from the left and without overlap, become `to`. The empty text occurs
/// before each character and at the end.
pub open spec fn replaced(s: Seq<char>, from: Seq<char>, to: Seq<char>) -> Seq<char>
    decreases s.len(),
{
    if from.len() == 0 {
        if s.len() == 0 {
            to
        } else {
            to + seq![s[0]] + replaced(s.skip(1), from, to)
        }
    } else if s.len() < from.len() {
        s
    } else if s.take(from.len() as int) == from {
        to + replaced(s.skip(from.len() as int), from, to)
    } else {
        seq![s[0]] + replaced(s.skip(1), from, to)
    }
}

/// The characters of a text.
fn chars_of(s: &str) -> (r: Vec<char>)
    ensures
        r@ == s@,
{
    let mut chars: Vec<char> = Vec::new();
    for c in it: s.chars()
        invariant
            chars@ == s@.take(it.index() as int),
            it.seq() == s@,
    {
        chars.push(c);
        assert(s@.take(it.index() + 1) =~= s@.take(it.index() as int).push(c));
    }
    assert(chars@ =~= s@);
    chars
}

/// Whether `from` occurs in `s` at `at`.
fn occurs_at(s: &Vec<char>, from: &Vec<char>, at: usize) -> (r: bool)
    requires
        at <= s@.len(),
    ensures
        r == (from@.len() <= s@.len() - at && s@.skip(at as int).take(from@.len() as int) == from@),
{
    assert(s@.len() == s.len());
    if from.len() > s.len() - at {
        return false;
    }
    let ghost there = s@.skip(at as int).take(from@.len() as int);
    let mut k: usize = 0;
    while k < from.len()
        invariant
            k <= from@.len() <= s@.len() - at,
            s@.len() <= usize::MAX,
            there == s@.skip(at as int).take(from@.len() as int),
            forall|j: int| 0 <= j < k ==> there[j] == from@[j],
        decreases from@.len() - k,
    {
        assert(there[k as int] == s@[at + k]);
        if s[at + k] != from[k] {
            return false;
        }
        k = k + 1;
    }
    assert(there =~= from@);
    true
}

/// Writes `to` for all occurrences of `from`.
fn str_replace(s: &str, from: &str, to: &str) -> (r: String)
    ensures
        r@ == replaced(s@, from@, to@),
{
    let chars = chars_of(s);
    let pattern = chars_of(from);
    let mut r: String = String::new();
    let mut i: usize = 0;
    assert(s@.skip(0) =~= s@);
    while i < chars.len()
        invariant
            chars@ == s@,
            pattern@ == from@,
            i <= s@.len(),
            r@ + replaced(s@.skip(i as int), from@, to@) == replaced(s@, from@, to@),
        decreases s@.len() - i,
    {
        let ghost before = r@;
        let ghost rest = s@.skip(i as int);
        let occurs = occurs_at(&chars, &pattern, i);
        if occurs {
            r.append(to);
        }
        if !occurs || pattern.len() == 0 {
            r.push(chars[i]);
            i = i + 1;
        } else {
            i = i + pattern.len();
        }
        proof {
            let after = s@.skip(i as int);
            if occurs && from@.len() > 0 {
                assert(after =~= rest.skip(from@.len() as int));
            } else {
                assert(after =~= rest.skip(1));
                assert(rest =~= seq![rest[0]] + after);
                if from@.len() == 0 {
                    assert(rest.take(0) =~= from@);
                }
                if !occurs && rest.len() < from@.len() {
                    assert(replaced(after, from@, to@) == after);
                }
            }
            assert(r@ + replaced(s@.skip(i as int), from@, to@) =~= before + replaced(
                rest,
                from@,
                to@,
            ));
        }
    }
    if pattern.len() == 0 {
        r.append(to);
    }
    assert(r@ =~= replaced(s@, from@, to@));
    r
}

/// Writes the public address of a host in place of its private one. The two numbers of bytes stay
/// as they are.
pub fn map_address(line: LogLine, private_address: &str, public_address: &str) -> (r: LogLine)
    ensures
        r.a@ == replaced(line.a@, private_address@, public_address@),
        r.b@ == replaced(line.b@, private_address@, public_address@),
        r.a_to_b == line.a_to_b,
        r.b_to_a == line.b_to_a,
{
    LogLine {
        a: str_replace(line.a.as_str(), private_address, public_address),
        b: str_replace(line.b.as_str(), private_address, public_address),
        a_to_b: line.a_to_b,
        b_to_a: line.b_to_a,
    }
}

/// The number of bytes that a text with a unit stands for, if it stands for any.
pub uninterp spec fn byte_unit_bytes(s: Seq<char>) -> Option<u128>;

/// `Byte::from_str`, and `get_bytes` of what it gives.
#[verifier::external_body]
fn parse_bytes(s: &str) -> (r: Option<u128>)
    ensures
        r == byte_unit_bytes(s@),
{
    match byte_unit::Byte::from_str(s) {
        Ok(bytes) => Some(bytes.get_bytes()),
        Err(_) => None,
    }
}

/// A line as it is shown: the hosts in quotes, and the bytes that each has sent the other.
pub open spec fn shown(a: Seq<char>, b: Seq<char>, a_to_b: u128, b_to_a: u128) -> Seq<char> {
    "{ \""@ + a + "\", \""@ + b + "\", "@ + text::decimal(a_to_b as nat) + ", "@ + text::decimal(
        b_to_a as nat,
    ) + " }"@
}

/// Shows a line whose numbers of bytes are known.
pub fn show(a: &str, b: &str, a_to_b: u128, b_to_a: u128) -> (r: String)
    ensures
        r@ == shown(a@, b@, a_to_b, b_to_a),
{
    let mut r: String = "{ \"".to_string();
    r.append(a);
    r.append("\", \"");
    r.append(b);
    r.append("\", ");
    push_decimal_u128(&mut r, a_to_b);
    r.append(", ");
    push_decimal_u128(&mut r, b_to_a);
    r.append(" }");
    r
}

impl LogLine {
    /// The line as it is shown, if both its numbers of bytes can be read.
    pub fn show(&self) -> (r: Option<String>)
        ensures
            r is Some <==> byte_unit_bytes(self.a_to_b@) is Some && byte_unit_bytes(
                self.b_to_a@,
            ) is Some,
            r is Some ==> r->Some_0@ == shown(
                self.a@,
                self.b@,
                byte_unit_bytes(self.a_to_b@)->Some_0,
                byte_unit_bytes(self.b_to_a@)->Some_0,
            ),
    {
        match (parse_bytes(self.a_to_b.as_str()), parse_bytes(self.b_to_a.as_str())) {
            (Some(a_to_b), Some(b_to_a)) => Some(
                show(self.a.as_str(), self.b.as_str(), a_to_b, b_to_a),
            ),
            _ => None,
        }
    }
}

/// Every line of the log is about the hosts of one of the latest lines, and no two of these are
/// about the same hosts.
pub proof fn law_each_pair_of_hosts_once(lines: Seq<LogLine>, picks: Seq<int>, i: int)
    requires
        are_latest(lines, 0, picks),
        0 <= i < lines.len(),
    ensures
        exists|k: int|
            0 <= k < picks.len() && same_hosts(lines[#[trigger] picks[k]], lines[i]) && picks[k]
                >= i,
        forall|k: int, l: int|
            0 <= k < l < picks.len() ==> !same_hosts(
                lines[#[trigger] picks[k]],
                lines[#[trigger] picks[l]],
            ),
{
    let last = lemma_last_about(lines, i);
    assert(picks.contains(last));
    let k = choose|k: int| 0 <= k < picks.len() && picks[k] == last;
    assert(same_hosts(lines[picks[k]], lines[i]));
    assert forall|k: int, l: int| 0 <= k < l < picks.len() implies !same_hosts(
        lines[#[trigger] picks[k]],
        lines[#[trigger] picks[l]],
    ) by {
        assert(is_latest(lines, picks[l]));
    }
}

/// A framed log is the log up to its last closing brace, in brackets, and a log without one has no
/// frame.
pub proof fn law_a_frame_ends_with_the_last_brace(log: &str, r: Option<String>, k: int)
    requires
        call_ensures(frame_log, (log,), r),
    ensures
        r is None <==> forall|i: int| 0 <= i < log@.len() ==> #[trigger] log@[i] != '}',
        r matches Some(text) ==> {
            let n = text@.len() - 2;
            &&& 0 < n <= log@.len()
            &&& text@[0] == '['
            &&& text@[n + 1] == ']'
            &&& 0 <= k < n ==> text@[k + 1] == log@[k]
            &&& text@[n] == '}'
            &&& n <= k < log@.len() ==> log@[k] != '}'
        },
{
    if log@.contains('}') {
        let i = choose|i: int| 0 <= i < log@.len() && log@[i] == '}';
        assert(log@[i] == '}');
    }
    if let Some(text) = r {
        let last = choose|last: int| #[trigger]
            closes_at(log@, last) && text@ == framed(log@, last);
        assert(closes_at(log@, last));
        assert(text@.len() == last + 3);
        assert(text@[last + 1] == log@[last]);
    }
}

/// Of the lines about the same two hosts the last one is kept, and no other, and every pair of hosts
/// keeps one. What is kept stays as it is.
pub proof fn law_the_last_line_about_two_hosts_is_kept(
    lines: Vec<LogLine>,
    r: Vec<LogLine>,
    i: int,
    k: int,
    l: int,
)
    requires
        call_ensures(unique_latest_logs, (lines,), r),
    ensures
        0 <= i < lines@.len() && (forall|j: int|
            i < j < lines@.len() ==> (#[trigger] lines@[j]).a@ != lines@[i].a@ || lines@[j].b@
                != lines@[i].b@) ==> r@.contains(lines@[i]),
        0 <= k < r@.len() ==> exists|i: int|
            {
                &&& 0 <= i < lines@.len()
                &&& r@[k] == #[trigger] lines@[i]
                &&& forall|j: int|
                    i < j < lines@.len() ==> (#[trigger] lines@[j]).a@ != lines@[i].a@
                        || lines@[j].b@ != lines@[i].b@
            },
        0 <= k < l < r@.len() ==> r@[k].a@ != r@[l].a@ || r@[k].b@ != r@[l].b@,
{
    let all = lines@;
    let picks = choose|picks: Seq<int>| #[trigger]
        are_latest(all, 0, picks) && r@ == Seq::new(picks.len(), |k: int| all[picks[k]]);
    if 0 <= i < all.len() && (forall|j: int|
        i < j < all.len() ==> (#[trigger] all[j]).a@ != all[i].a@ || all[j].b@ != all[i].b@) {
        assert(is_latest(all, i));
        assert(picks.contains(i));
        let m = choose|m: int| 0 <= m < picks.len() && picks[m] == i;
        assert(r@[m] == all[i]);
    }
    if 0 <= k < r@.len() {
        let p = picks[k];
        assert(is_latest(all, p));
        assert(r@[k] == all[p]);
        assert forall|j: int| p < j < all.len() implies (#[trigger] all[j]).a@ != all[p].a@
            || all[j].b@ != all[p].b@ by {
            assert(!same_hosts(all[j], all[p]));
        }
    }
    if 0 <= k < l < r@.len() {
        assert(picks[k] > picks[l]);
        assert(is_latest(all, picks[l]));
        assert(!same_hosts(all[picks[k]], all[picks[l]]));
    }
}

/// A text in which the private address does not occur stays as it is, and one that is the private
/// address, before and after anything in which that does not occur, has the public one in its place.
pub proof fn law_the_address_is_replaced(
    line: LogLine,
    private_address: &str,
    public_address: &str,
    r: LogLine,
    rest: Seq<char>,
)
    requires
        call_ensures(map_address, (line, private_address, public_address), r),
        private_address@.len() > 0,
        forall|i: int|
            0 <= i <= rest.len() - private_address@.len() ==> #[trigger] rest.subrange(
                i,
                i + private_address@.len(),
            ) != private_address@,
    ensures
        line.a@ == rest ==> r.a@ == rest,
        line.b@ == rest ==> r.b@ == rest,
        line.a@ == private_address@ + rest ==> r.a@ == public_address@ + rest,
        line.b@ == private_address@ + rest ==> r.b@ == public_address@ + rest,
        r.a_to_b == line.a_to_b,
        r.b_to_a == line.b_to_a,
{
    let from = private_address@;
    let to = public_address@;
    lemma_nothing_replaced(rest, from, to);
    let both = from + rest;
    assert(both.take(from.len() as int) =~= from);
    assert(both.skip(from.len() as int) =~= rest);
    assert(replaced(both, from, to) == to + replaced(rest, from, to));
}

proof fn lemma_nothing_replaced(s: Seq<char>, from: Seq<char>, to: Seq<char>)
    requires
        from.len() > 0,
        forall|i: int|
            0 <= i <= s.len() - from.len() ==> #[trigger] s.subrange(i, i + from.len()) != from,
    ensures
        replaced(s, from, to) == s,
    decreases s.len(),
{
    if s.len() >= from.len() {
        assert(s.take(from.len() as int) =~= s.subrange(0int, 0int + from.len()));
        assert(s.subrange(0int, 0int + from.len()) != from);
        let rest = s.skip(1);
        assert forall|i: int| 0 <= i <= rest.len() - from.len() implies #[trigger] rest.subrange(
            i,
            i + from.len(),
        ) != from by {
            assert(rest.subrange(i, i + from.len()) =~= s.subrange(i + 1, i + 1 + from.len()));
        }
        lemma_nothing_replaced(rest, from, to);
        assert(seq![s[0]] + rest =~= s);
    }
}

} // verus!
