//! The counting logic of the `string length` builtin.

use vstd::prelude::*;

verus! {

/// Why an option was refused.
#[derive(Clone, Copy, Debug, PartialEq, Eq, Structural)]
pub enum StringError {
    UnknownOption,
}

/// The options of `string length`: `quiet` prints nothing, `visible` counts
/// display width line by line instead of characters.
#[derive(Clone, Copy, Debug, PartialEq, Eq, Structural)]
pub struct Length {
    pub quiet: bool,
    pub visible: bool,
}

/// What `string length` prints, one number per line, and whether it
/// succeeds.
#[derive(Debug)]
pub struct LengthReport {
    pub printed: Vec<usize>,
    pub success: bool,
}

/// Some measured value is non-zero.
pub open spec fn any_nonzero(vals: Seq<usize>) -> bool {
    exists|i: int| 0 <= i < vals.len() && vals[i] > 0
}

/// The largest value, or 0 when there is none.
pub open spec fn max_of(vals: Seq<usize>) -> usize
    decreases vals.len(),
{
    if vals.len() == 0 {
        0
    } else {
        let m = max_of(vals.drop_last());
        if vals.last() > m {
            vals.last()
        } else {
            m
        }
    }
}

impl Length {
    /// No option set.
    pub fn new() -> (r: Length)
        ensures
            !r.quiet && !r.visible,
    {
        Length { quiet: false, visible: false }
    }

    /// Applies the short option `c`: `q` sets quiet, `V` sets visible; any
    /// other option is refused and nothing changes.
    pub fn parse_opt(&mut self, c: char) -> (r: Result<(), StringError>)
        ensures
            (c == 'q' || c == 'V') <==> r is Ok,
            r is Err ==> r == Err::<(), StringError>(StringError::UnknownOption) && *final(self) == *old(self),
            c == 'q' ==> final(self).quiet && final(self).visible == old(self).visible,
            c == 'V' ==> final(self).visible && final(self).quiet == old(self).quiet,
    {
        match c {
            'q' => self.quiet = true,
            'V' => self.visible = true,
            _ => return Err(StringError::UnknownOption),
        }
        Ok(())
    }

    /// The measures of one argument in the default mode: its length in
    /// characters.
    pub fn measure_plain(arg: &Vec<char>) -> (r: Vec<usize>)
        ensures
            r@ == seq![arg@.len() as usize],
    {
        vec![arg.len()]
    }

    /// The measure of one line in visible mode, given the display widths of
    /// its pieces between carriage returns: a carriage return goes back to
    /// the start of the line, so the widest piece decides.
    pub fn line_width(piece_widths: &Vec<usize>) -> (r: usize)
        ensures
            r == max_of(piece_widths@),
    {
        let mut m: usize = 0;
        let mut i: usize = 0;
        while i < piece_widths.len()
            invariant
                i <= piece_widths@.len(),
                m == max_of(piece_widths@.take(i as int)),
            decreases piece_widths@.len() - i,
        {
            assert(piece_widths@.take(i as int + 1).drop_last() =~= piece_widths@.take(i as int));
            if piece_widths[i] > m {
                m = piece_widths[i];
            }
            i = i + 1;
        }
        assert(piece_widths@.take(i as int) =~= piece_widths@);
        m
    }

    /// Reports the measures of all arguments, one per line in order. Unless
    /// quiet, each is printed; the command succeeds when some measure is
    /// non-zero.
    pub fn handle(&self, measures: &Vec<Vec<usize>>) -> (r: LengthReport)
        ensures
            r.success == any_nonzero(measures.deep_view().flatten()),
            self.quiet ==> r.printed@.len() == 0,
            !self.quiet ==> r.printed@ == measures.deep_view().flatten(),
    {
        let ghost all = measures.deep_view().flatten();
        let mut printed: Vec<usize> = Vec::new();
        let mut nonempty: bool = false;
        let mut a: usize = 0;
        while a < measures.len()
            invariant
                a <= measures@.len(),
                all == measures.deep_view().flatten(),
                nonempty == any_nonzero(measures.deep_view().take(a as int).flatten()),
                self.quiet ==> printed@.len() == 0,
                !self.quiet ==> printed@ == measures.deep_view().take(a as int).flatten(),
            decreases measures@.len() - a,
        {
            let ghost done = measures.deep_view().take(a as int).flatten();
            let ghost arg = measures.deep_view()[a as int];
            assert(measures.deep_view().take(a as int + 1) =~= measures.deep_view().take(a as int).push(arg));
            proof {
                lemma_flatten_push(measures.deep_view().take(a as int), arg);
            }
            let vals = &measures[a];
            assert(vals@ == arg);
            let mut j: usize = 0;
            while j < vals.len()
                invariant
                    j <= vals@.len(),
                    vals@ == arg,
                    nonempty == any_nonzero(done + arg.take(j as int)),
                    self.quiet ==> printed@.len() == 0,
                    !self.quiet ==> printed@ == done + arg.take(j as int),
                decreases vals@.len() - j,
            {
                let v = vals[j];
                assert(done + arg.take(j as int + 1) =~= (done + arg.take(j as int)).push(v));
                proof {
                    lemma_any_nonzero_push(done + arg.take(j as int), v);
                }
                if v > 0 {
                    nonempty = true;
                }
                if !self.quiet {
                    printed.push(v);
                }
                j = j + 1;
            }
            assert(arg.take(j as int) =~= arg);
            a = a + 1;
        }
        assert(measures.deep_view().take(a as int) =~= measures.deep_view());
        LengthReport { printed, success: nonempty }
    }
}

proof fn lemma_any_nonzero_push(s: Seq<usize>, v: usize)
    ensures
        any_nonzero(s.push(v)) == (any_nonzero(s) || v > 0),
{
    if any_nonzero(s) {
        let i = choose|i: int| 0 <= i < s.len() && s[i] > 0;
        assert(s.push(v)[i] == s[i]);
    }
    if v > 0 {
        assert(s.push(v)[s.len() as int] == v);
    }
    if any_nonzero(s.push(v)) {
        let i = choose|i: int| 0 <= i < s.push(v).len() && s.push(v)[i] > 0;
        if i < s.len() {
            assert(s[i] == s.push(v)[i]);
        }
    }
}

proof fn lemma_flatten_push(s: Seq<Seq<usize>>, x: Seq<usize>)
    ensures
        s.push(x).flatten() == s.flatten() + x,
    decreases s.len(),
{
    if s.len() == 0 {
        assert(s.push(x).drop_first() =~= Seq::<Seq<usize>>::empty());
        assert(s.push(x).flatten() =~= x + Seq::<Seq<usize>>::empty().flatten());
        assert(s.flatten() + x =~= x);
    } else {
        lemma_flatten_push(s.drop_first(), x);
        assert(s.push(x).drop_first() =~= s.drop_first().push(x));
        assert(s.push(x).flatten() =~= s[0] + s.drop_first().push(x).flatten());
    }
}

} // verus!
