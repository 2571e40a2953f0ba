use crate::compiler::Event;
use vstd::prelude::*;
use vstd::string::StringSliceAdditionalSpecFns;

verus! {

/// The bytes that force a symbol to be quoted: `,`, tab, `\r`, `\n` and `"`.
pub open spec fn needs_quotes_byte(b: u8) -> bool {
    b == 0x2c || b == 0x09 || b == 0x0d || b == 0x0a || b == 0x22
}

/// The bytes with each `"` doubled.
pub open spec fn double_quotes(b: Seq<u8>) -> Seq<u8>
    decreases b.len(),
{
    if b.len() == 0 {
        seq![]
    } else {
        double_quotes(b.drop_last()) + if b.last() == 0x22 {
            seq![0x22u8, 0x22u8]
        } else {
            seq![b.last()]
        }
    }
}

/// A symbol as a CSV field (RFC 4180): as it is when it is not empty and
/// holds none of `, \t \r \n "`; otherwise between quotes, with quotes doubled.
pub open spec fn symbol_field(b: Seq<u8>) -> Seq<u8> {
    if b.len() > 0 && forall|i: int| 0 <= i < b.len() ==> !needs_quotes_byte(#[trigger] b[i]) {
        b
    } else {
        seq![0x22u8] + double_quotes(b) + seq![0x22u8]
    }
}

/// The content of a quoted CSV field with each doubled `"` read as one.
pub open spec fn unquote(c: Seq<u8>) -> Seq<u8>
    decreases c.len(),
{
    if c.len() == 0 {
        seq![]
    } else if c[0] == 0x22 && c.len() >= 2 && c[1] == 0x22 {
        seq![0x22u8] + unquote(c.skip(2))
    } else {
        seq![c[0]] + unquote(c.skip(1))
    }
}

/// What a CSV field (RFC 4180) holds: between quotes, its content with
/// doubled quotes read as one; otherwise the field as it stands.
pub open spec fn field_value(w: Seq<u8>) -> Seq<u8> {
    if w.len() >= 2 && w[0] == 0x22 && w.last() == 0x22 {
        unquote(w.subrange(1, w.len() - 1))
    } else {
        w
    }
}

proof fn lemma_double_quotes_concat(a: Seq<u8>, b: Seq<u8>)
    ensures
        double_quotes(a + b) == double_quotes(a) + double_quotes(b),
    decreases b.len(),
{
    if b.len() == 0 {
        assert(a + b =~= a);
        assert(double_quotes(b) =~= Seq::<u8>::empty());
        assert(double_quotes(a) + double_quotes(b) =~= double_quotes(a));
    } else {
        lemma_double_quotes_concat(a, b.drop_last());
        assert((a + b).drop_last() =~= a + b.drop_last());
        assert((a + b).last() == b.last());
    }
}

proof fn lemma_unquote_double_quotes(b: Seq<u8>)
    ensures
        unquote(double_quotes(b)) == b,
    decreases b.len(),
{
    if b.len() > 0 {
        let rest = b.skip(1);
        assert(b =~= seq![b[0]] + rest);
        lemma_double_quotes_concat(seq![b[0]], rest);
        let head = seq![b[0]];
        assert(head.drop_last() =~= Seq::<u8>::empty());
        assert(double_quotes(head.drop_last()) =~= Seq::<u8>::empty());
        lemma_unquote_double_quotes(rest);
        let d = double_quotes(b);
        if b[0] == 0x22 {
            assert(double_quotes(head) =~= seq![0x22u8, 0x22u8]);
            assert(d.skip(2) =~= double_quotes(rest));
        } else {
            assert(double_quotes(head) =~= seq![b[0]]);
            assert(d.skip(1) =~= double_quotes(rest));
        }
    }
}

/// Reading a symbol's field as a CSV field gives the symbol back.
pub proof fn lemma_symbol_field_round_trip(b: Seq<u8>)
    ensures
        field_value(symbol_field(b)) == b,
{
    if b.len() > 0 && forall|i: int| 0 <= i < b.len() ==> !needs_quotes_byte(#[trigger] b[i]) {
        assert(!needs_quotes_byte(b[0]));
    } else {
        let w = seq![0x22u8] + double_quotes(b) + seq![0x22u8];
        assert(w.subrange(1, w.len() - 1) =~= double_quotes(b));
        lemma_unquote_double_quotes(b);
    }
}

/// Appends a symbol to `out` as a CSV field.
pub fn write_symbol(out: &mut Vec<u8>, value: &str)
    ensures
        final(out)@ == old(out)@ + symbol_field(value.spec_bytes()),
{
    let bytes = value.as_bytes();
    let n = bytes.len();
    let mut plain = n > 0;
    let mut i: usize = 0;
    while i < n
        invariant
            i <= n,
            n == bytes@.len(),
            plain == (n > 0 && forall|k: int| 0 <= k < i ==> !needs_quotes_byte(#[trigger] bytes@[k])),
        decreases n - i,
    {
        let b = bytes[i];
        if b == 0x2c || b == 0x09 || b == 0x0d || b == 0x0a || b == 0x22 {
            plain = false;
        }
        i += 1;
    }
    let ghost start = out@;
    if plain {
        let mut j: usize = 0;
        while j < n
            invariant
                j <= n,
                n == bytes@.len(),
                out@ == start + bytes@.take(j as int),
            decreases n - j,
        {
            out.push(bytes[j]);
            assert(out@ =~= start + bytes@.take(j + 1));
            j += 1;
        }
        assert(bytes@.take(n as int) =~= bytes@);
        return;
    }
    out.push(0x22);
    let mut j: usize = 0;
    while j < n
        invariant
            j <= n,
            n == bytes@.len(),
            out@ == start + seq![0x22u8] + double_quotes(bytes@.take(j as int)),
        decreases n - j,
    {
        let b = bytes[j];
        assert(bytes@.take(j + 1).drop_last() =~= bytes@.take(j as int));
        if b == 0x22 {
            out.push(0x22);
            out.push(0x22);
        } else {
            out.push(b);
        }
        assert(out@ =~= start + seq![0x22u8] + double_quotes(bytes@.take(j + 1)));
        j += 1;
    }
    assert(bytes@.take(n as int) =~= bytes@);
    out.push(0x22);
    assert(out@ =~= start + (seq![0x22u8] + double_quotes(bytes@) + seq![0x22u8]));
}

/// The decimal digits of `n`, most significant first.
pub open spec fn decimal(n: nat) -> Seq<u8>
    decreases n,
{
    if n < 10 {
        seq![(0x30 + n) as u8]
    } else {
        decimal(n / 10).push((0x30 + n % 10) as u8)
    }
}

/// `v` in decimal, with a leading `-` when it is negative.
pub open spec fn signed_decimal(v: int) -> Seq<u8> {
    if v < 0 {
        seq![0x2du8] + decimal((-v) as nat)
    } else {
        decimal(v as nat)
    }
}

/// Appends `n` in decimal.
pub fn write_u64(out: &mut Vec<u8>, n: u64)
    ensures
        final(out)@ == old(out)@ + decimal(n as nat),
    decreases n,
{
    if n >= 10 {
        write_u64(out, n / 10);
    }
    out.push((0x30 + n % 10) as u8);
    proof {
        if n >= 10 {
            assert(decimal(n as nat) == decimal((n / 10) as nat).push((0x30 + n % 10) as u8));
        }
    }
}

/// Appends `v` in decimal, with a leading `-` when it is negative.
pub fn write_i32(out: &mut Vec<u8>, v: i32)
    ensures
        final(out)@ == old(out)@ + signed_decimal(v as int),
{
    let ghost start = out@;
    if v < 0 {
        out.push(0x2d);
        let magnitude: u64 = (0 - (v as i64)) as u64;
        write_u64(out, magnitude);
        assert(out@ =~= start + (seq![0x2du8] + decimal((-v) as nat)));
    } else {
        write_u64(out, v as u64);
    }
}

/// The tables of facts, and the extracted text.
#[derive(Clone, Copy, Debug, PartialEq, Eq, Structural)]
pub enum Table {
    Text,
    RegionStart,
    RegionEnd,
    Assertion,
    Parent,
    Ancestor,
    Atom,
    Integer,
    Real,
    Compound,
    Argument,
}

/// The table each kind of event goes to.
pub open spec fn spec_table_of<'s>(event: Event<'s, &str>) -> Table {
    match event {
        Event::Text(_) => Table::Text,
        Event::RegionStart(..) => Table::RegionStart,
        Event::RegionEnd(..) => Table::RegionEnd,
        Event::Assertion(..) => Table::Assertion,
        Event::Parent(..) => Table::Parent,
        Event::Ancestor(..) => Table::Ancestor,
        Event::Atom(..) => Table::Atom,
        Event::Integer(..) => Table::Integer,
        Event::Real(..) => Table::Real,
        Event::Compound(..) => Table::Compound,
        Event::Argument(..) => Table::Argument,
    }
}

/// Two numbers separated by a tab, and a line feed.
pub open spec fn pair_row(a: nat, b: nat) -> Seq<u8> {
    decimal(a) + seq![0x09u8] + decimal(b) + seq![0x0au8]
}

/// The bytes an event adds to its table: the text itself for the text;
/// for the others a line of tab-separated fields, but for atoms, whose id
/// and value are separated by a comma, the value as a CSV field. The value
/// of a real is given by its caller as `real_text`.
pub open spec fn row<'s>(event: Event<'s, &str>, real_text: Seq<u8>) -> Seq<u8> {
    match event {
        Event::Text(t) => t.spec_bytes(),
        Event::RegionStart(r, offset) => pair_row(r.0 as nat, offset as nat),
        Event::RegionEnd(r, offset) => pair_row(r.0 as nat, offset as nat),
        Event::Assertion(t, r) => pair_row(t.0 as nat, r.0 as nat),
        Event::Parent(o, i) => pair_row(o.0 as nat, i.0 as nat),
        Event::Ancestor(o, i) => pair_row(o.0 as nat, i.0 as nat),
        Event::Atom(id, value) => decimal(id.0 as nat) + seq![0x2cu8] + symbol_field(value.spec_bytes())
            + seq![0x0au8],
        Event::Integer(id, v) => decimal(id.0 as nat) + seq![0x09u8] + signed_decimal(v as int) + seq![
            0x0au8,
        ],
        Event::Real(id, _) => decimal(id.0 as nat) + seq![0x09u8] + real_text + seq![0x0au8],
        Event::Compound(id, f) => pair_row(id.0 as nat, f.0 as nat),
        Event::Argument(c, position, t) => decimal(c.0 as nat) + seq![0x09u8] + decimal(position as nat)
            + seq![0x09u8] + decimal(t.0 as nat) + seq![0x0au8],
    }
}

/// Appends two numbers separated by a tab, and a line feed.
fn write_pair(out: &mut Vec<u8>, a: u32, b: u32)
    ensures
        final(out)@ == old(out)@ + pair_row(a as nat, b as nat),
{
    let ghost start = out@;
    write_u64(out, a as u64);
    out.push(0x09);
    write_u64(out, b as u64);
    out.push(0x0a);
    assert(out@ =~= start + pair_row(a as nat, b as nat));
}

/// Appends the bytes of `text`.
fn write_bytes(out: &mut Vec<u8>, text: &str)
    ensures
        final(out)@ == old(out)@ + text.spec_bytes(),
{
    let bytes = text.as_bytes();
    let ghost start = out@;
    let mut i: usize = 0;
    while i < bytes.len()
        invariant
            i <= bytes@.len(),
            out@ == start + bytes@.take(i as int),
        decreases bytes@.len() - i,
    {
        out.push(bytes[i]);
        assert(out@ =~= start + bytes@.take(i + 1));
        i += 1;
    }
    assert(bytes@.take(bytes@.len() as int) =~= bytes@);
}

/// Appends the row of `event` to `out`, which holds its table, and gives
/// that table; the text of a real's value is `real_text`.
pub fn write_row<'s>(out: &mut Vec<u8>, event: &Event<'s, &str>, real_text: &str) -> (r: Table)
    ensures
        r == spec_table_of(*event),
        final(out)@ == old(out)@ + row(*event, real_text.spec_bytes()),
{
    let ghost start = out@;
    match *event {
        Event::Text(t) => {
            write_bytes(out, t);
            Table::Text
        },
        Event::RegionStart(r, offset) => {
            write_pair(out, r.0, offset);
            Table::RegionStart
        },
        Event::RegionEnd(r, offset) => {
            write_pair(out, r.0, offset);
            Table::RegionEnd
        },
        Event::Assertion(t, r) => {
            write_pair(out, t.0, r.0);
            Table::Assertion
        },
        Event::Parent(o, i) => {
            write_pair(out, o.0, i.0);
            Table::Parent
        },
        Event::Ancestor(o, i) => {
            write_pair(out, o.0, i.0);
            Table::Ancestor
        },
        Event::Atom(id, value) => {
            write_u64(out, id.0 as u64);
            out.push(0x2c);
            write_symbol(out, value);
            out.push(0x0a);
            assert(out@ =~= start + row(*event, real_text.spec_bytes()));
            Table::Atom
        },
        Event::Integer(id, v) => {
            write_u64(out, id.0 as u64);
            out.push(0x09);
            write_i32(out, v);
            out.push(0x0a);
            assert(out@ =~= start + row(*event, real_text.spec_bytes()));
            Table::Integer
        },
        Event::Real(id, _) => {
            write_u64(out, id.0 as u64);
            out.push(0x09);
            write_bytes(out, real_text);
            out.push(0x0a);
            assert(out@ =~= start + row(*event, real_text.spec_bytes()));
            Table::Real
        },
        Event::Compound(id, f) => {
            write_pair(out, id.0, f.0);
            Table::Compound
        },
        Event::Argument(c, position, t) => {
            write_u64(out, c.0 as u64);
            out.push(0x09);
            write_u64(out, position as u64);
            out.push(0x09);
            write_u64(out, t.0 as u64);
            out.push(0x0a);
            assert(out@ =~= start + row(*event, real_text.spec_bytes()));
            Table::Argument
        },
    }
}

/// The name of the file that holds each table.
pub open spec fn spec_file_name(t: Table) -> &'static str {
    match t {
        Table::Text => "text.txt",
        Table::RegionStart => "region_start.facts",
        Table::RegionEnd => "region_end.facts",
        Table::Assertion => "assertion.facts",
        Table::Parent => "parent.facts",
        Table::Ancestor => "ancestor.facts",
        Table::Atom => "atom.facts",
        Table::Integer => "integer.facts",
        Table::Real => "real.facts",
        Table::Compound => "compound.facts",
        Table::Argument => "argument.facts",
    }
}

/// Every table, in the order their files are created.
pub open spec fn table_order() -> Seq<Table> {
    seq![
        Table::Text,
        Table::RegionStart,
        Table::RegionEnd,
        Table::Assertion,
        Table::Parent,
        Table::Ancestor,
        Table::Atom,
        Table::Integer,
        Table::Real,
        Table::Compound,
        Table::Argument,
    ]
}

impl Table {
    /// The table's place among all the tables.
    pub fn position(self) -> (r: usize)
        ensures
            r < table_order().len(),
            table_order()[r as int] == self,
    {
        match self {
            Table::Text => 0,
            Table::RegionStart => 1,
            Table::RegionEnd => 2,
            Table::Assertion => 3,
            Table::Parent => 4,
            Table::Ancestor => 5,
            Table::Atom => 6,
            Table::Integer => 7,
            Table::Real => 8,
            Table::Compound => 9,
            Table::Argument => 10,
        }
    }

    /// Every table, in the order their files are created.
    pub fn all() -> (r: Vec<Table>)
        ensures
            r@ == table_order(),
    {
        let r = vec![
            Table::Text,
            Table::RegionStart,
            Table::RegionEnd,
            Table::Assertion,
            Table::Parent,
            Table::Ancestor,
            Table::Atom,
            Table::Integer,
            Table::Real,
            Table::Compound,
            Table::Argument,
        ];
        assert(r@ =~= seq![
            Table::Text,
            Table::RegionStart,
            Table::RegionEnd,
            Table::Assertion,
            Table::Parent,
            Table::Ancestor,
            Table::Atom,
            Table::Integer,
            Table::Real,
            Table::Compound,
            Table::Argument,
        ]);
        r
    }

    /// The name of the file that holds the table.
    pub fn file_name(self) -> (r: &'static str)
        ensures
            r == spec_file_name(self),
    {
        match self {
            Table::Text => "text.txt",
            Table::RegionStart => "region_start.facts",
            Table::RegionEnd => "region_end.facts",
            Table::Assertion => "assertion.facts",
            Table::Parent => "parent.facts",
            Table::Ancestor => "ancestor.facts",
            Table::Atom => "atom.facts",
            Table::Integer => "integer.facts",
            Table::Real => "real.facts",
            Table::Compound => "compound.facts",
            Table::Argument => "argument.facts",
        }
    }
}

} // verus!
