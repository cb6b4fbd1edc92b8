//! The text formats of the ns-3 simulator: topologies and flows as it reads
//! them, and records of completion times as it writes them.

use crate::network::types::{FctRecord, Flow, FlowId, Link, Node, NodeKind};
use crate::units::{Bytes, Nanosecs};
use vstd::prelude::*;

verus! {

/// The congestion control protocol of a simulation.
#[derive(Debug, Clone, Copy, PartialEq, Eq, Structural)]
pub enum CcKind {
    /// DCTCP.
    Dctcp,
    /// TIMELY.
    Timely,
    /// DCQCN.
    Dcqcn,
}

impl Default for CcKind {
    fn default() -> (r: Self)
        ensures
            r == CcKind::Dctcp,
    {
        CcKind::Dctcp
    }
}

impl CcKind {
    /// The name of the protocol as the simulator knows it.
    pub open spec fn spec_as_str(&self) -> Seq<char> {
        match self {
            CcKind::Dctcp => "dctcp"@,
            CcKind::Timely => "timely_vwin"@,
            CcKind::Dcqcn => "dcqcn_paper_vwin"@,
        }
    }

    /// Returns the name of the protocol as the simulator knows it.
    pub fn as_str(&self) -> (r: &'static str)
        ensures
            r@ == self.spec_as_str(),
    {
        match self {
            CcKind::Dctcp => "dctcp",
            CcKind::Timely => "timely_vwin",
            CcKind::Dcqcn => "dcqcn_paper_vwin",
        }
    }
}

/// The reasons for which a record of the simulator cannot be read.
#[derive(Debug, Clone, Copy, PartialEq, Eq, Structural)]
pub enum ParseNs3Error {
    /// A line has another number of fields than a record has.
    WrongNrFields {
        /// The number of fields of a record.
        expected: usize,
        /// The number of fields of the line.
        got: usize,
    },
    /// A field is no number that fits.
    ParseInt,
}

/// The number of fields of a record.
pub const NR_NS3_FIELDS: usize = 9;

/// A space.
pub const SPACE: u8 = 32;

/// The end of a line.
pub const NEWLINE: u8 = 10;

/// The decimal digits of `n`.
pub open spec fn digits(n: nat) -> Seq<u8>
    decreases n,
{
    if n < 10 {
        seq![(48 + n) as u8]
    } else {
        digits(n / 10).push((48 + n % 10) as u8)
    }
}

/// Appends the decimal digits of `n` to `out`.
pub fn write_number(out: &mut Vec<u8>, n: u64)
    ensures
        final(out)@ == old(out)@ + digits(n as nat),
    decreases n,
{
    if n >= 10 {
        write_number(out, n / 10);
    }
    out.push((n % 10) as u8 + 48);
    proof {
        if n < 10 {
            assert(final(out)@ =~= old(out)@ + digits(n as nat));
        } else {
            assert(final(out)@ =~= old(out)@ + digits(n as nat));
        }
    }
}

/// The text `bps`.
pub open spec fn bps() -> Seq<u8> {
    seq![98u8, 112u8, 115u8]
}

/// The text `ns`.
pub open spec fn ns() -> Seq<u8> {
    seq![110u8, 115u8]
}

/// The line of a link: its ends, its bandwidth in bits per second, its
/// delay in nanoseconds, and an error rate of zero.
pub open spec fn link_line(link: Link) -> Seq<u8> {
    digits(link.a.0 as nat) + seq![SPACE] + digits(link.b.0 as nat) + seq![SPACE] + digits(
        link.bandwidth.0 as nat,
    ) + bps() + seq![SPACE] + digits(link.delay.0 as nat) + ns() + seq![SPACE, 48u8, NEWLINE]
}

/// The lines of the links, one after the other.
pub open spec fn link_lines(links: Seq<Link>) -> Seq<u8>
    decreases links.len(),
{
    if links.len() == 0 {
        Seq::empty()
    } else {
        link_lines(links.drop_last()) + link_line(links.last())
    }
}

/// The switches among the nodes, in their order.
pub open spec fn switches(nodes: Seq<Node>) -> Seq<Node> {
    nodes.filter(|n: Node| n.kind == NodeKind::Switch)
}

/// The identifiers of the nodes, with a space between one and the next.
pub open spec fn id_list(nodes: Seq<Node>) -> Seq<u8>
    decreases nodes.len(),
{
    if nodes.len() == 0 {
        Seq::empty()
    } else if nodes.len() == 1 {
        digits(nodes[0].id.0 as nat)
    } else {
        id_list(nodes.drop_last()) + seq![SPACE] + digits(nodes.last().id.0 as nat)
    }
}

/// A topology as the simulator reads it: a line with the numbers of nodes,
/// switches and links; a line with the identifiers of the switches; and a
/// line for every link.
pub open spec fn topology_text(nodes: Seq<Node>, links: Seq<Link>) -> Seq<u8> {
    digits(nodes.len()) + seq![SPACE] + digits(switches(nodes).len()) + seq![SPACE] + digits(
        links.len(),
    ) + seq![NEWLINE] + id_list(switches(nodes)) + seq![NEWLINE] + link_lines(links)
}

/// Writes a topology as the simulator reads it.
#[verifier::rlimit(50)]
pub fn translate_topology(nodes: &[Node], links: &[Link]) -> (r: Vec<u8>)
    ensures
        r@ == topology_text(nodes@, links@),
{
    let ghost is_switch = |n: Node| n.kind == NodeKind::Switch;
    let mut found: Vec<Node> = Vec::new();
    let mut i: usize = 0;
    proof {
        assert(nodes@.take(0).filter(is_switch) =~= Seq::<Node>::empty()) by {
            reveal(Seq::filter);
        }
    }
    while i < nodes.len()
        invariant
            i <= nodes@.len(),
            is_switch == |n: Node| n.kind == NodeKind::Switch,
            found@ == nodes@.take(i as int).filter(is_switch),
        decreases nodes@.len() - i,
    {
        let node = nodes[i];
        proof {
            assert(nodes@.take(i + 1) =~= nodes@.take(i as int).push(node));
            Seq::lemma_filter_push(nodes@.take(i as int), node, is_switch);
        }
        if let NodeKind::Switch = node.kind {
            found.push(node);
        }
        i += 1;
    }
    proof {
        assert(nodes@.take(i as int) =~= nodes@);
    }
    let mut out: Vec<u8> = Vec::new();
    write_number(&mut out, nodes.len() as u64);
    out.push(SPACE);
    write_number(&mut out, found.len() as u64);
    out.push(SPACE);
    write_number(&mut out, links.len() as u64);
    out.push(NEWLINE);
    let ghost head = out@;
    let mut k: usize = 0;
    proof {
        assert(out@ =~= head + id_list(found@.take(0)));
    }
    while k < found.len()
        invariant
            k <= found@.len(),
            out@ == head + id_list(found@.take(k as int)),
        decreases found@.len() - k,
    {
        if k > 0 {
            out.push(SPACE);
        }
        write_number(&mut out, found[k].id.0 as u64);
        proof {
            let now = found@.take(k + 1);
            assert(now.drop_last() =~= found@.take(k as int));
            assert(now.last() == found@[k as int]);
            assert(out@ =~= head + id_list(now));
        }
        k += 1;
    }
    out.push(NEWLINE);
    proof {
        assert(found@.take(k as int) =~= found@);
    }
    let ghost top = out@;
    let mut k: usize = 0;
    proof {
        assert(out@ =~= top + link_lines(links@.take(0)));
    }
    while k < links.len()
        invariant
            k <= links@.len(),
            out@ == top + link_lines(links@.take(k as int)),
        decreases links@.len() - k,
    {
        let link = links[k];
        let ghost before = out@;
        write_number(&mut out, link.a.0 as u64);
        out.push(SPACE);
        write_number(&mut out, link.b.0 as u64);
        out.push(SPACE);
        write_number(&mut out, link.bandwidth.0);
        out.push(98);
        out.push(112);
        out.push(115);
        out.push(SPACE);
        write_number(&mut out, link.delay.0);
        out.push(110);
        out.push(115);
        out.push(SPACE);
        out.push(48);
        out.push(NEWLINE);
        proof {
            let now = links@.take(k + 1);
            assert(now.drop_last() =~= links@.take(k as int));
            assert(now.last() == link);
            assert(out@ =~= before + link_line(link));
            assert(out@ =~= top + link_lines(now));
        }
        k += 1;
    }
    proof {
        assert(links@.take(k as int) =~= links@);
        assert(out@ =~= topology_text(nodes@, links@));
    }
    out
}

/// The digits of a fraction of a second in nanoseconds, `places` of them,
/// without the zeros at their end.
pub open spec fn fraction(frac: nat, places: nat) -> Seq<u8>
    decreases places,
{
    if places == 0 {
        Seq::empty()
    } else if frac % 10 == 0 {
        fraction(frac / 10, (places - 1) as nat)
    } else {
        padded(frac, places)
    }
}

/// The last `places` decimal digits of `n`, with zeros in front where `n`
/// has fewer.
pub open spec fn padded(n: nat, places: nat) -> Seq<u8>
    decreases places,
{
    if places == 0 {
        Seq::empty()
    } else {
        padded(n / 10, (places - 1) as nat).push((48 + n % 10) as u8)
    }
}

/// A time in nanoseconds as seconds: the whole seconds, and after a point
/// the fraction, where there is one.
pub open spec fn seconds_text(nanos: u64) -> Seq<u8> {
    if nanos % 1_000_000_000 == 0 {
        digits((nanos / 1_000_000_000) as nat)
    } else {
        digits((nanos / 1_000_000_000) as nat) + seq![46u8] + fraction(
            (nanos % 1_000_000_000) as nat,
            9,
        )
    }
}

/// The line of a flow: its identifier, its ends, the priority 3, the port
/// 100, its size in bytes and its start in seconds.
pub open spec fn flow_line(flow: Flow) -> Seq<u8> {
    digits(flow.id.0 as nat) + seq![SPACE] + digits(flow.src.0 as nat) + seq![SPACE] + digits(
        flow.dst.0 as nat,
    ) + seq![SPACE, 51u8, SPACE, 49u8, 48u8, 48u8, SPACE] + digits(flow.size.0 as nat) + seq![
        SPACE,
    ] + seconds_text(flow.start.0)
}

/// The lines of the flows, each after the end of the line before it.
pub open spec fn flow_lines(flows: Seq<Flow>) -> Seq<u8>
    decreases flows.len(),
{
    if flows.len() == 0 {
        Seq::empty()
    } else {
        flow_lines(flows.drop_last()) + seq![NEWLINE] + flow_line(flows.last())
    }
}

/// The flows as the simulator reads them: a line with their number, and a
/// line for every flow; the last line is not ended.
pub open spec fn flows_text(flows: Seq<Flow>) -> Seq<u8> {
    digits(flows.len()) + flow_lines(flows)
}

/// Appends the last `places` decimal digits of `n`, with zeros in front.
fn write_padded(out: &mut Vec<u8>, n: u64, places: u8)
    ensures
        final(out)@ == old(out)@ + padded(n as nat, places as nat),
    decreases places,
{
    if places > 0 {
        write_padded(out, n / 10, places - 1);
        out.push((n % 10) as u8 + 48);
    }
    proof {
        assert(final(out)@ =~= old(out)@ + padded(n as nat, places as nat));
    }
}

/// Appends the digits of a fraction without the zeros at their end.
fn write_fraction(out: &mut Vec<u8>, frac: u64, places: u8)
    ensures
        final(out)@ == old(out)@ + fraction(frac as nat, places as nat),
    decreases places,
{
    if places == 0 {
        proof {
            assert(final(out)@ =~= old(out)@ + fraction(frac as nat, places as nat));
        }
    } else if frac % 10 == 0 {
        write_fraction(out, frac / 10, places - 1);
    } else {
        write_padded(out, frac, places);
    }
}

/// Appends the time `nanos` in seconds.
fn write_seconds(out: &mut Vec<u8>, nanos: u64)
    ensures
        final(out)@ == old(out)@ + seconds_text(nanos),
{
    let ghost before = out@;
    write_number(out, nanos / 1_000_000_000);
    let frac = nanos % 1_000_000_000;
    if frac != 0 {
        let ghost whole = out@;
        out.push(46);
        write_fraction(out, frac, 9);
        proof {
            assert(out@ =~= whole + seq![46u8] + fraction(frac as nat, 9));
            assert(out@ =~= before + seconds_text(nanos));
        }
    }
}

/// Appends the line of a flow, without its end.
#[verifier::rlimit(50)]
fn write_flow_line(out: &mut Vec<u8>, flow: &Flow)
    ensures
        final(out)@ == old(out)@ + flow_line(*flow),
{
    let ghost before = out@;
    write_number(out, flow.id.0 as u64);
    out.push(SPACE);
    write_number(out, flow.src.0 as u64);
    out.push(SPACE);
    write_number(out, flow.dst.0 as u64);
    let ghost ends = out@;
    proof {
        assert(ends =~= before + (digits(flow.id.0 as nat) + seq![SPACE] + digits(
            flow.src.0 as nat,
        ) + seq![SPACE] + digits(flow.dst.0 as nat)));
    }
    out.push(SPACE);
    out.push(51);
    out.push(SPACE);
    out.push(49);
    out.push(48);
    out.push(48);
    out.push(SPACE);
    let ghost fixed = out@;
    proof {
        assert(fixed =~= ends + seq![SPACE, 51u8, SPACE, 49u8, 48u8, 48u8, SPACE]);
    }
    write_number(out, flow.size.0);
    out.push(SPACE);
    let ghost sized = out@;
    proof {
        assert(sized =~= fixed + (digits(flow.size.0 as nat) + seq![SPACE]));
    }
    write_seconds(out, flow.start.0);
    proof {
        assert(out@ =~= before + flow_line(*flow));
    }
}

/// Writes the flows as the simulator reads them.
pub fn translate_flows(flows: &[Flow]) -> (r: Vec<u8>)
    ensures
        r@ == flows_text(flows@),
{
    let mut out: Vec<u8> = Vec::new();
    write_number(&mut out, flows.len() as u64);
    let ghost head = out@;
    let mut k: usize = 0;
    proof {
        assert(out@ =~= head + flow_lines(flows@.take(0)));
    }
    while k < flows.len()
        invariant
            k <= flows@.len(),
            out@ == head + flow_lines(flows@.take(k as int)),
        decreases flows@.len() - k,
    {
        let flow = flows[k];
        let ghost before = out@;
        out.push(NEWLINE);
        write_flow_line(&mut out, &flow);
        proof {
            let now = flows@.take(k + 1);
            assert(now.drop_last() =~= flows@.take(k as int));
            assert(now.last() == flow);
            assert(out@ =~= before + seq![NEWLINE] + flow_line(flow));
            assert(out@ =~= head + flow_lines(now));
        }
        k += 1;
    }
    proof {
        assert(flows@.take(k as int) =~= flows@);
    }
    out
}

/// Whether a byte is white space.
pub open spec fn is_space(b: u8) -> bool {
    b == 32 || (9 <= b <= 13)
}

/// The fields of a line: the runs of bytes between white space.
///
/// The line is read from its start: `cur` is the field that is being read
/// at position `i`, and `done` holds the fields before it.
pub open spec fn fields_from(line: Seq<u8>, i: int, cur: Seq<u8>, done: Seq<Seq<u8>>) -> Seq<
    Seq<u8>,
>
    decreases line.len() - i,
{
    if i < 0 || i >= line.len() {
        if cur.len() > 0 {
            done.push(cur)
        } else {
            done
        }
    } else if is_space(line[i]) {
        if cur.len() > 0 {
            fields_from(line, i + 1, Seq::empty(), done.push(cur))
        } else {
            fields_from(line, i + 1, cur, done)
        }
    } else {
        fields_from(line, i + 1, cur.push(line[i]), done)
    }
}

/// The fields of a line.
pub open spec fn fields_of(line: Seq<u8>) -> Seq<Seq<u8>> {
    fields_from(line, 0, Seq::empty(), Seq::empty())
}

/// The number that decimal digits stand for.
pub open spec fn value_of(text: Seq<u8>) -> nat
    decreases text.len(),
{
    if text.len() == 0 {
        0
    } else {
        value_of(text.drop_last()) * 10 + (text.last() - 48) as nat
    }
}

/// The text without a plus sign at its start.
pub open spec fn unsigned(text: Seq<u8>) -> Seq<u8> {
    if text.len() > 0 && text[0] == 43 {
        text.subrange(1, text.len() as int)
    } else {
        text
    }
}

/// Whether the text is a number that fits into 64 bits: decimal digits, one
/// at least, after a plus sign or none.
pub open spec fn is_number(text: Seq<u8>) -> bool {
    &&& unsigned(text).len() > 0
    &&& forall|i: int| 0 <= i < unsigned(text).len() ==> 48 <= #[trigger] unsigned(text)[i] <= 57
    &&& value_of(unsigned(text)) <= u64::MAX
}

/// The number that the text stands for, if it is one.
pub open spec fn number_of(text: Seq<u8>) -> Option<u64> {
    if is_number(text) {
        Some(value_of(unsigned(text)) as u64)
    } else {
        None
    }
}

/// The value of digits is at least the value of the digits before the last.
pub proof fn lemma_value_grows(text: Seq<u8>, k: int)
    requires
        0 <= k <= text.len(),
        forall|i: int| 0 <= i < text.len() ==> 48 <= #[trigger] text[i] <= 57,
    ensures
        value_of(text.take(k)) <= value_of(text),
    decreases text.len() - k,
{
    if k < text.len() {
        lemma_value_grows(text, k + 1);
        assert(text.take(k + 1).drop_last() =~= text.take(k));
        assert(text[k] >= 48);
    } else {
        assert(text.take(k) =~= text);
    }
}

/// Reads a number: decimal digits, one at least, after a plus sign or none.
#[verifier::rlimit(50)]
pub fn parse_number(text: &[u8]) -> (r: Option<u64>)
    ensures
        r == number_of(text@),
{
    let start: usize = if text.len() > 0 && text[0] == 43 {
        1
    } else {
        0
    };
    let ghost body = unsigned(text@);
    proof {
        assert(body.len() == text@.len() - start);
    }
    if start == text.len() {
        return None;
    }
    let mut value: u64 = 0;
    let mut i: usize = start;
    proof {
        assert(body.take(0) =~= Seq::<u8>::empty());
    }
    while i < text.len()
        invariant
            start <= i <= text@.len(),
            body == unsigned(text@),
            body.len() == text@.len() - start,
            forall|j: int| 0 <= j < body.len() ==> body[j] == text@[j + start],
            forall|j: int| 0 <= j < i - start ==> 48 <= #[trigger] body[j] <= 57,
            value == value_of(body.take(i - start)),
        decreases text@.len() - i,
    {
        let b = text[i];
        if b < 48 || b > 57 {
            proof {
                assert(body[i - start] == b);
            }
            return None;
        }
        proof {
            assert(body.take(i - start + 1).drop_last() =~= body.take(i - start));
            assert(body.take(i - start + 1).last() == b);
        }
        let d: u64 = (b - 48) as u64;
        let next = match value.checked_mul(10) {
            Some(tens) => tens.checked_add(d),
            None => None,
        };
        match next {
            Some(next) => {
                value = next;
            },
            None => {
                proof {
                    assert(value_of(body.take(i - start + 1)) > u64::MAX);
                    if is_number(text@) {
                        lemma_value_grows(body, i - start + 1);
                    }
                }
                return None;
            },
        }
        i += 1;
    }
    proof {
        assert(body.take(i - start) =~= body);
    }
    Some(value)
}

/// Splits a line into its fields.
pub fn split_fields(line: &[u8]) -> (r: Vec<Vec<u8>>)
    ensures
        r@.map_values(|f: Vec<u8>| f@) == fields_of(line@),
{
    let mut done: Vec<Vec<u8>> = Vec::new();
    let mut cur: Vec<u8> = Vec::new();
    let mut i: usize = 0;
    let ghost view = |f: Vec<u8>| f@;
    proof {
        assert(done@.map_values(view) =~= Seq::<Seq<u8>>::empty());
    }
    while i < line.len()
        invariant
            i <= line@.len(),
            view == |f: Vec<u8>| f@,
            fields_of(line@) == fields_from(line@, i as int, cur@, done@.map_values(view)),
        decreases line@.len() - i,
    {
        let b = line[i];
        if b == 32 || (9 <= b && b <= 13) {
            if cur.len() > 0 {
                let ghost before = done@.map_values(view);
                let ghost field = cur@;
                let mut taken: Vec<u8> = Vec::new();
                std::mem::swap(&mut taken, &mut cur);
                done.push(taken);
                proof {
                    assert(done@.map_values(view) =~= before.push(field));
                }
            }
        } else {
            cur.push(b);
        }
        i += 1;
    }
    if cur.len() > 0 {
        let ghost before = done@.map_values(view);
        let ghost field = cur@;
        done.push(cur);
        proof {
            assert(done@.map_values(view) =~= before.push(field));
        }
    }
    done
}

/// What the fields of a record stand for: the identifier of the flow in the
/// first field, its size and start in the sixth and seventh, and its
/// measured and ideal completion times in the last two.
pub open spec fn record_of(fields: Seq<Seq<u8>>) -> Result<FctRecord, ParseNs3Error> {
    if fields.len() != NR_NS3_FIELDS {
        Err(ParseNs3Error::WrongNrFields { expected: NR_NS3_FIELDS, got: fields.len() as usize })
    } else if number_of(fields[0]) is None || number_of(fields[0])->0 > usize::MAX
        || number_of(fields[5]) is None || number_of(fields[6]) is None || number_of(
        fields[7],
    ) is None || number_of(fields[8]) is None {
        Err(ParseNs3Error::ParseInt)
    } else {
        Ok(
            FctRecord {
                id: FlowId(number_of(fields[0])->0 as usize),
                size: Bytes(number_of(fields[5])->0),
                start: Nanosecs(number_of(fields[6])->0),
                fct: Nanosecs(number_of(fields[7])->0),
                ideal: Nanosecs(number_of(fields[8])->0),
            },
        )
    }
}

/// Reads one record of the simulator from a line of nine fields.
pub fn parse_ns3_record(s: &[u8]) -> (r: Result<FctRecord, ParseNs3Error>)
    ensures
        r == record_of(fields_of(s@)),
{
    let fields = split_fields(s);
    let nr_fields = fields.len();
    let ghost views = fields@.map_values(|f: Vec<u8>| f@);
    if nr_fields != NR_NS3_FIELDS {
        return Err(ParseNs3Error::WrongNrFields { expected: NR_NS3_FIELDS, got: nr_fields });
    }
    proof {
        assert(views[0] == fields@[0]@);
        assert(views[5] == fields@[5]@);
        assert(views[6] == fields@[6]@);
        assert(views[7] == fields@[7]@);
        assert(views[8] == fields@[8]@);
    }
    let id = match parse_number(fields[0].as_slice()) {
        Some(id) => if id > usize::MAX as u64 {
            return Err(ParseNs3Error::ParseInt);
        } else {
            id as usize
        },
        None => {
            return Err(ParseNs3Error::ParseInt);
        },
    };
    let size = match parse_number(fields[5].as_slice()) {
        Some(size) => size,
        None => {
            return Err(ParseNs3Error::ParseInt);
        },
    };
    let start = match parse_number(fields[6].as_slice()) {
        Some(start) => start,
        None => {
            return Err(ParseNs3Error::ParseInt);
        },
    };
    let fct = match parse_number(fields[7].as_slice()) {
        Some(fct) => fct,
        None => {
            return Err(ParseNs3Error::ParseInt);
        },
    };
    let ideal = match parse_number(fields[8].as_slice()) {
        Some(ideal) => ideal,
        None => {
            return Err(ParseNs3Error::ParseInt);
        },
    };
    Ok(
        FctRecord {
            id: FlowId(id),
            size: Bytes(size),
            start: Nanosecs(start),
            fct: Nanosecs(fct),
            ideal: Nanosecs(ideal),
        },
    )
}

/// The lines of a text: the runs of bytes between ends of lines, of which
/// the last need not be ended.
///
/// The text is read from its start: `cur` is the line that is being read at
/// position `i`, and `done` holds the lines before it.
pub open spec fn lines_from(text: Seq<u8>, i: int, cur: Seq<u8>, done: Seq<Seq<u8>>) -> Seq<
    Seq<u8>,
>
    decreases text.len() - i,
{
    if i < 0 || i >= text.len() {
        if cur.len() > 0 {
            done.push(cur)
        } else {
            done
        }
    } else if text[i] == NEWLINE {
        lines_from(text, i + 1, Seq::empty(), done.push(cur))
    } else {
        lines_from(text, i + 1, cur.push(text[i]), done)
    }
}

/// The records of the lines: the record of every line, or the error of the
/// first line that is no record.
pub open spec fn records_of(lines: Seq<Seq<u8>>) -> Result<Seq<FctRecord>, ParseNs3Error>
    decreases lines.len(),
{
    if lines.len() == 0 {
        Ok(Seq::empty())
    } else {
        match records_of(lines.drop_last()) {
            Err(e) => Err(e),
            Ok(records) => match record_of(fields_of(lines.last())) {
                Err(e) => Err(e),
                Ok(record) => Ok(records.push(record)),
            },
        }
    }
}

/// Reads the records of the simulator, one from every line.
#[verifier::rlimit(50)]
pub fn parse_ns3_records(s: &[u8]) -> (r: Result<Vec<FctRecord>, ParseNs3Error>)
    ensures
        match r {
            Ok(records) => records_of(lines_from(s@, 0, Seq::empty(), Seq::empty())) == Ok::<
                Seq<FctRecord>,
                ParseNs3Error,
            >(records@),
            Err(e) => records_of(lines_from(s@, 0, Seq::empty(), Seq::empty())) == Err::<
                Seq<FctRecord>,
                ParseNs3Error,
            >(e),
        },
{
    let mut records: Vec<FctRecord> = Vec::new();
    let mut cur: Vec<u8> = Vec::new();
    let mut i: usize = 0;
    let ghost mut done: Seq<Seq<u8>> = Seq::empty();
    let ghost all = lines_from(s@, 0, Seq::empty(), Seq::empty());
    while i < s.len()
        invariant
            i <= s@.len(),
            all == lines_from(s@, 0, Seq::empty(), Seq::empty()),
            all == lines_from(s@, i as int, cur@, done),
            records_of(done) == Ok::<Seq<FctRecord>, ParseNs3Error>(records@),
        decreases s@.len() - i,
    {
        let b = s[i];
        if b == NEWLINE {
            let ghost line = cur@;
            let parsed = parse_ns3_record(cur.as_slice());
            proof {
                assert(done.push(line).drop_last() =~= done);
            }
            match parsed {
                Ok(record) => {
                    records.push(record);
                },
                Err(e) => {
                    proof {
                        assert(done.push(line).last() == line);
                        assert(records_of(done.push(line)) == Err::<Seq<FctRecord>, ParseNs3Error>(
                            e,
                        ));
                        lemma_records_fail(s@, i + 1, Seq::empty(), done.push(line), e);
                        assert(all == lines_from(s@, i + 1, Seq::empty(), done.push(line)));
                    }
                    return Err(e);
                },
            }
            proof {
                done = done.push(line);
            }
            cur = Vec::new();
        } else {
            cur.push(b);
        }
        i += 1;
    }
    if cur.len() > 0 {
        let ghost line = cur@;
        let parsed = parse_ns3_record(cur.as_slice());
        proof {
            assert(done.push(line).drop_last() =~= done);
        }
        proof {
            assert(done.push(line).last() == line);
        }
        match parsed {
            Ok(record) => {
                records.push(record);
            },
            Err(e) => {
                return Err(e);
            },
        }
    }
    Ok(records)
}

/// Once a line is no record, the lines after it do not matter.
pub proof fn lemma_records_fail(
    text: Seq<u8>,
    i: int,
    cur: Seq<u8>,
    done: Seq<Seq<u8>>,
    e: ParseNs3Error,
)
    requires
        0 <= i <= text.len(),
        records_of(done) == Err::<Seq<FctRecord>, ParseNs3Error>(e),
    ensures
        records_of(lines_from(text, i, cur, done)) == Err::<Seq<FctRecord>, ParseNs3Error>(e),
    decreases text.len() - i,
{
    if i >= text.len() {
        if cur.len() > 0 {
            assert(done.push(cur).drop_last() =~= done);
        }
    } else if text[i] == NEWLINE {
        assert(done.push(cur).drop_last() =~= done);
        lemma_records_fail(text, i + 1, Seq::empty(), done.push(cur), e);
    } else {
        lemma_records_fail(text, i + 1, cur.push(text[i]), done, e);
    }
}

} // verus!
