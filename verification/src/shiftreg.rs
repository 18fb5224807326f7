//! The shift-out driver: a fixed-capacity bit buffer and the three-wire
//! protocol that serialises it.

use vstd::prelude::*;

verus! {

/// Number of cells every driver allocates. A chain is strictly shorter.
pub const MAX_BITS: usize = 2048;

/// The two ways a driver operation is refused.
#[derive(Clone, Copy, Debug, PartialEq, Eq, Structural)]
pub enum DriverError {
    /// The requested chain length is not below [`MAX_BITS`].
    CapacityExceeded,
    /// The cell index is not below the chain length.
    IndexOutOfRange,
}

impl DriverError {
    /// The text that goes with the error.
    pub fn message(&self) -> (text: &'static str)
        ensures
            text@ == match self {
                DriverError::CapacityExceeded => "bits exceed MAX_BITS in shifregister"@,
                DriverError::IndexOutOfRange => "index out of range"@,
            },
    {
        match self {
            DriverError::CapacityExceeded => "bits exceed MAX_BITS in shifregister",
            DriverError::IndexOutOfRange => "index out of range",
        }
    }
}

/// One of the three output lines of the chain.
#[derive(Clone, Copy, Debug, PartialEq, Eq, Structural)]
pub enum Line {
    Data,
    Clock,
    Latch,
}

/// A single write to an output line.
#[derive(Clone, Copy, Debug, PartialEq, Eq, Structural)]
pub struct Signal {
    pub line: Line,
    pub high: bool,
}

/// The level each output line was last driven to.
#[derive(Clone, Copy, Debug, PartialEq, Eq, Structural)]
pub struct Pins {
    pub data: bool,
    pub clock: bool,
    pub latch: bool,
}

impl Pins {
    /// The levels after one more write.
    pub open spec fn driven(self, signal: Signal) -> Pins {
        match signal.line {
            Line::Data => Pins { data: signal.high, ..self },
            Line::Clock => Pins { clock: signal.high, ..self },
            Line::Latch => Pins { latch: signal.high, ..self },
        }
    }

    /// The levels after a sequence of writes, applied in order.
    pub open spec fn after(self, signals: Seq<Signal>) -> Pins
        decreases signals.len(),
    {
        if signals.len() == 0 {
            self
        } else {
            self.after(signals.drop_last()).driven(signals.last())
        }
    }
}

/// The write sequence that shifts one cell out: latch low, the cell's value
/// on the data line, a clock pulse, latch high.
pub open spec fn bit_frame(bit: bool) -> Seq<Signal> {
    seq![
        Signal { line: Line::Latch, high: false },
        Signal { line: Line::Data, high: bit },
        Signal { line: Line::Clock, high: true },
        Signal { line: Line::Clock, high: false },
        Signal { line: Line::Latch, high: true },
    ]
}

/// The write sequence that transmits `cells`, first cell first.
pub open spec fn frame(cells: Seq<bool>) -> Seq<Signal>
    decreases cells.len(),
{
    if cells.len() == 0 {
        Seq::empty()
    } else {
        frame(cells.drop_last()) + bit_frame(cells.last())
    }
}

/// A chain of `bits` cells that are all off.
pub open spec fn blank(bits: nat) -> Seq<bool> {
    Seq::new(bits, |i: int| false)
}

/// Bit buffer of a shift-register chain together with the levels of its
/// three output lines. The buffer has [`MAX_BITS`] cells, of which the chain
/// uses the first ones; the others stay off. The view is the part in use.
pub struct Driver {
    registers: [bool; MAX_BITS],
    pins: Pins,
    bits: usize,
}

impl View for Driver {
    type V = Seq<bool>;

    closed spec fn view(&self) -> Seq<bool> {
        self.registers@.take(self.bits as int)
    }
}

impl Driver {
    #[verifier::type_invariant]
    spec fn well_formed(self) -> bool {
        &&& self.bits < MAX_BITS
        &&& forall|i: int| self.bits <= i < MAX_BITS ==> !#[trigger] self.registers@[i]
    }

    /// The level each line was last driven to.
    pub closed spec fn lines(&self) -> Pins {
        self.pins
    }

    /// Creates a driver for a chain of `bits` cells, all off.
    pub fn new(pins: Pins, bits: usize) -> (r: Result<Driver, DriverError>)
        ensures
            match r {
                Ok(driver) => bits < MAX_BITS && driver@ == blank(bits as nat) && driver.lines()
                    == pins,
                Err(e) => bits >= MAX_BITS && e == DriverError::CapacityExceeded,
            },
    {
        if bits >= MAX_BITS {
            return Err(DriverError::CapacityExceeded);
        }
        let driver = Driver { pins, registers: [false; MAX_BITS], bits };
        assert(driver@ =~= blank(bits as nat));
        Ok(driver)
    }

    /// Length of the chain.
    pub fn active_length(&self) -> (n: usize)
        ensures
            n == self@.len(),
            n < MAX_BITS,
    {
        proof {
            use_type_invariant(self);
        }
        self.bits
    }

    /// Levels of the three lines.
    pub fn pins(&self) -> (p: Pins)
        ensures
            p == self.lines(),
    {
        self.pins
    }

    /// Stores `bit` in cell `index`. Nothing reaches the wire before the next
    /// [`Driver::update`].
    pub fn set(&mut self, index: usize, bit: bool) -> (r: Result<(), DriverError>)
        ensures
            final(self).lines() == old(self).lines(),
            match r {
                Ok(_) => index < old(self)@.len() && final(self)@ == old(self)@.update(
                    index as int,
                    bit,
                ),
                Err(e) => index >= old(self)@.len() && e == DriverError::IndexOutOfRange
                    && *final(self) == *old(self),
            },
    {
        proof {
            use_type_invariant(&*self);
        }
        if index >= self.bits {
            return Err(DriverError::IndexOutOfRange);
        }
        self.registers[index] = bit;
        assert(self@ =~= old(self)@.update(index as int, bit));
        Ok(())
    }

    /// Reads cell `index`.
    pub fn get(&self, index: usize) -> (r: Result<bool, DriverError>)
        ensures
            match r {
                Ok(bit) => index < self@.len() && bit == self@[index as int],
                Err(e) => index >= self@.len() && e == DriverError::IndexOutOfRange,
            },
    {
        proof {
            use_type_invariant(self);
        }
        if index >= self.bits {
            return Err(DriverError::IndexOutOfRange);
        }
        Ok(self.registers[index])
    }

    /// Transmits the whole chain, cell 0 first. Every cell gets its own latch
    /// cycle: latch low, data, clock high, clock low, latch high.
    pub fn update(&mut self) -> (r: Result<Vec<Signal>, DriverError>)
        ensures
            final(self)@ == old(self)@,
            final(self).lines() == old(self).lines().after(frame(old(self)@)),
            r matches Ok(signals) && signals@ == frame(old(self)@),
    {
        proof {
            use_type_invariant(&*self);
        }
        let ghost start = self.pins;
        let mut signals: Vec<Signal> = Vec::new();
        let mut bit: usize = 0;
        while bit < self.bits
            invariant
                bit <= self.bits < MAX_BITS,
                self.bits == old(self).bits,
                self.registers == old(self).registers,
                signals@ == frame(self@.take(bit as int)),
                self.pins == start.after(signals@),
            decreases self.bits - bit,
        {
            let value = self.registers[bit];
            self.write(&mut signals, Line::Latch, false, Ghost(start));
            self.write(&mut signals, Line::Data, value, Ghost(start));
            self.write(&mut signals, Line::Clock, true, Ghost(start));
            self.write(&mut signals, Line::Clock, false, Ghost(start));
            self.write(&mut signals, Line::Latch, true, Ghost(start));
            proof {
                let sent = self@.take(bit as int);
                let next = self@.take(bit + 1);
                assert(next.drop_last() =~= sent);
                assert(next.last() == value);
                assert(signals@ =~= frame(sent) + bit_frame(value));
            }
            bit += 1;
        }
        assert(self@.take(self.bits as int) =~= self@);
        Ok(signals)
    }

    /// Drives one line and appends the write to `signals`.
    fn write(
        &mut self,
        signals: &mut Vec<Signal>,
        line: Line,
        high: bool,
        Ghost(start): Ghost<Pins>,
    )
        requires
            old(self).pins == start.after(old(signals)@),
        ensures
            final(self).bits == old(self).bits,
            final(self).registers == old(self).registers,
            final(self).pins == start.after(final(signals)@),
            final(signals)@ == old(signals)@.push(Signal { line, high }),
    {
        proof {
            use_type_invariant(&*self);
        }
        match line {
            Line::Data => {
                self.pins.data = high;
            },
            Line::Clock => {
                self.pins.clock = high;
            },
            Line::Latch => {
                self.pins.latch = high;
            },
        }
        signals.push(Signal { line, high });
        assert(signals@.drop_last() =~= old(signals)@);
    }
}

/// A frame holds five writes for every cell, and the writes `5 * index ..
/// 5 * index + 5` are the latch cycle of cell `index`: cells leave in
/// ascending order, each with its own latch low, data, clock pulse and
/// latch high.
pub proof fn lemma_frame_layout(cells: Seq<bool>, index: int)
    requires
        0 <= index < cells.len(),
    ensures
        frame(cells).len() == 5 * cells.len(),
        frame(cells).subrange(5 * index, 5 * index + 5) == bit_frame(cells[index]),
    decreases cells.len(),
{
    lemma_frame_len(cells);
    let sent = frame(cells.drop_last());
    lemma_frame_len(cells.drop_last());
    if index == cells.len() - 1 {
        assert(frame(cells).subrange(5 * index, 5 * index + 5) =~= bit_frame(cells.last()));
    } else {
        lemma_frame_layout(cells.drop_last(), index);
        assert(frame(cells).subrange(5 * index, 5 * index + 5) =~= sent.subrange(
            5 * index,
            5 * index + 5,
        ));
    }
}

/// A frame holds five writes for every cell.
pub proof fn lemma_frame_len(cells: Seq<bool>)
    ensures
        frame(cells).len() == 5 * cells.len(),
    decreases cells.len(),
{
    if cells.len() > 0 {
        lemma_frame_len(cells.drop_last());
    }
}

/// A stored bit is what a read of that cell returns and what the next frame
/// puts on the data line in that cell's latch cycle; no other cell changes.
pub proof fn lemma_set_is_observed(cells: Seq<bool>, index: int, bit: bool)
    requires
        0 <= index < cells.len(),
    ensures
        cells.update(index, bit)[index] == bit,
        frame(cells.update(index, bit))[5 * index + 1] == (Signal { line: Line::Data, high: bit }),
        forall|other: int|
            0 <= other < cells.len() && other != index ==> cells.update(index, bit)[other]
                == cells[other],
{
    let stored = cells.update(index, bit);
    lemma_frame_layout(stored, index);
    assert(frame(stored)[5 * index + 1] == frame(stored).subrange(5 * index, 5 * index + 5)[1]);
}

/// Between frames the clock line is low and the latch line is high, and
/// the data line holds the last cell sent.
pub proof fn lemma_lines_after_frame(pins: Pins, cells: Seq<bool>)
    requires
        cells.len() > 0,
    ensures
        pins.after(frame(cells)) == (Pins { data: cells.last(), clock: false, latch: true }),
{
    let writes = frame(cells);
    let sent = frame(cells.drop_last());
    let cycle = bit_frame(cells.last());
    assert(writes.drop_last() =~= sent + cycle.take(4));
    assert(writes.drop_last().drop_last() =~= sent + cycle.take(3));
    assert(writes.drop_last().drop_last().drop_last() =~= sent + cycle.take(2));
    reveal_with_fuel(Pins::after, 4);
}

} // verus!
