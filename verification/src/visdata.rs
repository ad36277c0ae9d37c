//! Working with interferometric visibility data: feed and visibility
//! polarizations, and the antenna/polarization pairs they form.

use vstd::prelude::*;

verus! {

/// A "feed pol(arization)" is the polarization component sampled by a
/// particular receptor on a radio antenna.
#[derive(Clone, Copy, Debug, Eq, Hash, Ord, PartialEq, PartialOrd, Structural)]
pub enum FeedPol {
    X,
    Y,
    R,
    L,
}

/// A "vis(ibility) pol(arization)" is the polarization sampled by the
/// cross-correlation of the voltages of two radio receptors.
#[derive(Clone, Copy, Debug, Eq, Hash, Ord, PartialEq, PartialOrd, Structural)]
pub enum VisPol {
    XX,
    XY,
    YX,
    YY,
    RR,
    RL,
    LR,
    LL,
    I,
    Q,
    U,
    V,
}

impl VisPol {
    /// Whether this is a Stokes parameter rather than a correlation of two
    /// feeds.
    pub open spec fn is_stokes(self) -> bool {
        self is I || self is Q || self is U || self is V
    }

    /// The feed of the first receptor.
    pub open spec fn spec_feedpol1(self) -> FeedPol {
        match self {
            VisPol::XX | VisPol::XY => FeedPol::X,
            VisPol::YX | VisPol::YY => FeedPol::Y,
            VisPol::RR | VisPol::RL => FeedPol::R,
            _ => FeedPol::L,
        }
    }

    /// The feed of the second receptor.
    pub open spec fn spec_feedpol2(self) -> FeedPol {
        match self {
            VisPol::XX | VisPol::YX => FeedPol::X,
            VisPol::XY | VisPol::YY => FeedPol::Y,
            VisPol::RR | VisPol::LR => FeedPol::R,
            _ => FeedPol::L,
        }
    }

    /// The feed polarization of the first receptor of a correlation; Stokes
    /// parameters have none.
    pub fn feedpol1(self) -> (f: FeedPol)
        requires
            !self.is_stokes(),
        ensures
            f == self.spec_feedpol1(),
    {
        match self {
            VisPol::XX | VisPol::XY => FeedPol::X,
            VisPol::YX | VisPol::YY => FeedPol::Y,
            VisPol::RR | VisPol::RL => FeedPol::R,
            _ => FeedPol::L,
        }
    }

    /// The feed polarization of the second receptor of a correlation;
    /// Stokes parameters have none.
    pub fn feedpol2(self) -> (f: FeedPol)
        requires
            !self.is_stokes(),
        ensures
            f == self.spec_feedpol2(),
    {
        match self {
            VisPol::XX | VisPol::YX => FeedPol::X,
            VisPol::XY | VisPol::YY => FeedPol::Y,
            VisPol::RR | VisPol::LR => FeedPol::R,
            _ => FeedPol::L,
        }
    }
}

/// A correlation is named by its two feeds: no two of them share both.
pub proof fn law_feeds_determine_vispol(p: VisPol, q: VisPol)
    requires
        !p.is_stokes(),
        !q.is_stokes(),
        p.spec_feedpol1() == q.spec_feedpol1(),
        p.spec_feedpol2() == q.spec_feedpol2(),
    ensures
        p == q,
{
}

/// An "antpol" specifies a voltage stream fed into a correlator: the
/// combination of a particular antenna and a particular feed on that
/// antenna.
#[derive(Clone, Copy, Debug, Eq, Hash, Ord, PartialEq, PartialOrd, Structural)]
pub struct AntPol {
    pub ant: u16,
    pub pol: FeedPol,
}

impl AntPol {
    /// The antpol of this antenna and feed.
    pub fn new(ant: u16, pol: FeedPol) -> (a: AntPol)
        ensures
            a == (AntPol { ant, pol }),
    {
        AntPol { ant, pol }
    }
}

/// A "basepol" specifies a visibility output from a correlator: the data
/// stream associated with the correlation of two input antpols.
#[derive(Clone, Copy, Debug, Eq, Hash, Ord, PartialEq, PartialOrd, Structural)]
pub struct BasePol {
    pub ant1: u16,
    pub ant2: u16,
    pub pol: VisPol,
}

impl BasePol {
    /// The basepol of these two antennas and this visibility polarization.
    pub fn new(ant1: u16, ant2: u16, pol: VisPol) -> (b: BasePol)
        ensures
            b == (BasePol { ant1, ant2, pol }),
    {
        BasePol { ant1, ant2, pol }
    }

    /// The first antenna with the feed of the first receptor.
    pub fn antpol1(self) -> (a: AntPol)
        requires
            !self.pol.is_stokes(),
        ensures
            a == (AntPol { ant: self.ant1, pol: self.pol.spec_feedpol1() }),
    {
        AntPol { ant: self.ant1, pol: self.pol.feedpol1() }
    }

    /// The second antenna with the feed of the second receptor.
    pub fn antpol2(self) -> (a: AntPol)
        requires
            !self.pol.is_stokes(),
        ensures
            a == (AntPol { ant: self.ant2, pol: self.pol.spec_feedpol2() }),
    {
        AntPol { ant: self.ant2, pol: self.pol.feedpol2() }
    }
}

/// A basepol that correlates two feeds is determined by its two antpols.
pub proof fn law_antpols_determine_basepol(a: BasePol, b: BasePol)
    requires
        !a.pol.is_stokes(),
        !b.pol.is_stokes(),
        (AntPol { ant: a.ant1, pol: a.pol.spec_feedpol1() }) == (AntPol { ant: b.ant1, pol: b.pol.spec_feedpol1() }),
        (AntPol { ant: a.ant2, pol: a.pol.spec_feedpol2() }) == (AntPol { ant: b.ant2, pol: b.pol.spec_feedpol2() }),
    ensures
        a == b,
{
    law_feeds_determine_vispol(a.pol, b.pol);
}

/// The error type of `anyhow`, which visibility streams report.
#[verifier::external_type_specification]
#[verifier::external_body]
pub struct ExAnyhowError(anyhow::Error);

/// A stream of visibility data, one basepol after another.
pub trait VisStream {
    /// Advance to the next visibility; `Ok(false)` at the end of the stream.
    fn next(&mut self) -> Result<bool, anyhow::Error>;

    /// The basepol of the current visibility.
    fn basepol(&self) -> BasePol;
}

} // verus!
