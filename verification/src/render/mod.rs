//! What is drawn: the projections and layers that a view can show, the mesh of the cells, and the
//! state of the views.

pub mod camera;
pub mod mesh;
pub mod pick;
pub mod view;

use crate::order::{ONE, ZERO};
use vstd::prelude::*;
use vstd::string::StrSliceExecFns;

verus! {

/// Whether two strings are the same, character by character.
pub(crate) fn same_text(a: &str, b: &str) -> (same: bool)
    ensures
        same == (a@ == b@),
{
    let n: usize = a.unicode_len();
    if n != b.unicode_len() {
        return false;
    }
    let mut i: usize = 0;
    while i < n
        invariant
            i <= n,
            n == a@.len(),
            n == b@.len(),
            forall|k: int| 0 <= k < i ==> a@[k] == b@[k],
        decreases n - i,
    {
        if a.get_char(i) != b.get_char(i) {
            assert(a@[i as int] != b@[i as int]);
            return false;
        }
        i = i + 1;
    }
    assert(a@ =~= b@);
    true
}

/// How a view maps the unit sphere to the screen.
#[derive(Clone, Copy, Debug, PartialEq, Eq, Structural)]
pub enum Projection {
    /// 3D globe rendered with the view's perspective camera.
    Sphere,
    /// Winkel Tripel: a compromise map projection.
    WinkelTripel,
}

impl Default for Projection {
    /// The 3D globe.
    fn default() -> (projection: Self)
        ensures
            projection == Projection::Sphere,
    {
        Projection::Sphere
    }
}

impl Projection {
    /// The projection that goes by an id.
    pub open spec fn named(id: Seq<char>) -> Option<Self> {
        if id == "sphere"@ {
            Some(Projection::Sphere)
        } else if id == "winkel"@ {
            Some(Projection::WinkelTripel)
        } else {
            None
        }
    }

    /// The number of the projection.
    pub open spec fn spec_index(self) -> u32 {
        match self {
            Projection::Sphere => 0,
            Projection::WinkelTripel => 1,
        }
    }

    /// Parse the projection id sent from the UI.
    pub fn from_str(s: &str) -> (out: Option<Self>)
        ensures
            out == Projection::named(s@),
    {
        if same_text(s, "sphere") {
            Some(Projection::Sphere)
        } else if same_text(s, "winkel") {
            Some(Projection::WinkelTripel)
        } else {
            None
        }
    }

    /// Mode index passed to the shader (selects the vertex-stage projection).
    pub fn index(self) -> (i: u32)
        ensures
            i == self.spec_index(),
    {
        match self {
            Projection::Sphere => 0,
            Projection::WinkelTripel => 1,
        }
    }
}

/// A selectable visibility layer. Each view picks one; continuous layers go through a colormap over
/// their range, and plates get a color each.
#[derive(Clone, Copy, Debug, PartialEq, Eq, Structural)]
pub enum Layer {
    Temperature,
    Plates,
    /// Surface elevation through a bathymetry and topography colormap.
    Elevation,
}

impl Layer {
    /// The layer that goes by an id.
    pub open spec fn named(id: Seq<char>) -> Option<Self> {
        if id == "temperature"@ {
            Some(Layer::Temperature)
        } else if id == "plates"@ {
            Some(Layer::Plates)
        } else if id == "elevation"@ {
            Some(Layer::Elevation)
        } else {
            None
        }
    }

    /// The number of the layer.
    pub open spec fn spec_index(self) -> u32 {
        match self {
            Layer::Temperature => 0,
            Layer::Plates => 1,
            Layer::Elevation => 2,
        }
    }

    /// The ends of the layer's range, as patterns: 210 to 350 K, 0 to 1, and -8000 to 6000 m.
    pub open spec fn spec_range(self) -> (u32, u32) {
        match self {
            Layer::Temperature => (0x4352_0000, 0x43AF_0000),
            Layer::Plates => (ZERO, ONE),
            Layer::Elevation => (0xC5FA_0000, 0x45BB_8000),
        }
    }

    /// Parse the layer id sent from the UI radio buttons.
    pub fn from_str(s: &str) -> (out: Option<Self>)
        ensures
            out == Layer::named(s@),
    {
        if same_text(s, "temperature") {
            Some(Layer::Temperature)
        } else if same_text(s, "plates") {
            Some(Layer::Plates)
        } else if same_text(s, "elevation") {
            Some(Layer::Elevation)
        } else {
            None
        }
    }

    /// Layer index passed to the shader (selects which per-cell field and colormap to use).
    pub fn index(self) -> (i: u32)
        ensures
            i == self.spec_index(),
    {
        match self {
            Layer::Temperature => 0,
            Layer::Plates => 1,
            Layer::Elevation => 2,
        }
    }

    /// Default (min, max) data range for the colormap, in the layer's units, as patterns. Unused
    /// for plates.
    pub fn range(self) -> (r: (u32, u32))
        ensures
            r == self.spec_range(),
    {
        match self {
            Layer::Temperature => (0x4352_0000, 0x43AF_0000),
            Layer::Plates => (ZERO, ONE),
            Layer::Elevation => (0xC5FA_0000, 0x45BB_8000),
        }
    }
}

/// Ids and indices tell projections and layers apart: each has its own id, and no two share an
/// index.
pub proof fn law_ids_and_indices_are_distinct(p: Projection, q: Projection, a: Layer, b: Layer)
    ensures
        exists|id: Seq<char>| Projection::named(id) == Some(p),
        exists|id: Seq<char>| Layer::named(id) == Some(a),
        p.spec_index() == q.spec_index() ==> p == q,
        a.spec_index() == b.spec_index() ==> a == b,
{
    reveal_strlit("sphere");
    reveal_strlit("winkel");
    reveal_strlit("temperature");
    reveal_strlit("plates");
    reveal_strlit("elevation");
    assert("sphere"@[0] != "winkel"@[0]);
    assert("temperature"@[0] != "plates"@[0]);
    assert("temperature"@[0] != "elevation"@[0]);
    assert("plates"@[0] != "elevation"@[0]);
    assert(Projection::named("sphere"@) == Some(Projection::Sphere));
    assert(Projection::named("winkel"@) == Some(Projection::WinkelTripel));
    assert(Layer::named("temperature"@) == Some(Layer::Temperature));
    assert(Layer::named("plates"@) == Some(Layer::Plates));
    assert(Layer::named("elevation"@) == Some(Layer::Elevation));
}

/// Every layer's range runs upward.
pub proof fn law_ranges_run_upward(a: Layer)
    ensures
        crate::order::spec_value_key(a.spec_range().0) < crate::order::spec_value_key(a.spec_range().1),
{
}

} // verus!
