//! Arguments of an indirect compute dispatch.
use vstd::prelude::*;
use crate::arith::{div_ceil_spec, min_spec, div_ceil_u32, min_u32, lemma_div_ceil_bounds, lemma_div_ceil_le};

verus! {

/// The workgroup counts of a dispatch in three dimensions, plus the number of
/// elements the dispatch is meant to cover.
#[derive(Clone, Copy, Debug, PartialEq, Eq, Structural)]
pub struct Indirect {
    pub x: u32,
    pub y: u32,
    pub z: u32,
    pub len: u32,
}

/// What a dispatch has to cover and what the device allows.
#[derive(Clone, Copy, Debug, PartialEq, Eq, Structural)]
pub struct DispatchSettings {
    pub workgroup_size: u32,
    pub dispatch_limit: u32,
    pub len: u32,
}

impl DispatchSettings {
    /// Both sizes are positive and the square of the limit is a `u32`.
    pub open spec fn valid(self) -> bool {
        &&& self.workgroup_size > 0
        &&& self.dispatch_limit > 0
        &&& self.dispatch_limit * self.dispatch_limit <= u32::MAX
    }

    /// The number of workgroups needed to cover `len` elements.
    pub open spec fn needed_workgroups(self) -> int {
        div_ceil_spec(self.len as int, self.workgroup_size as int)
    }
}

impl Indirect {
    /// The dispatch that `Indirect::new` computes for `settings`.
    pub open spec fn dispatch_for(settings: DispatchSettings) -> Indirect {
        let wc = settings.needed_workgroups();
        let limit = settings.dispatch_limit as int;
        Indirect {
            x: min_spec(wc, limit) as u32,
            y: min_spec(div_ceil_spec(wc, limit), limit) as u32,
            z: min_spec(div_ceil_spec(wc, limit * limit), limit) as u32,
            len: settings.len,
        }
    }

    /// Product of the three workgroup counts.
    pub open spec fn total_workgroups(self) -> int {
        self.x as int * self.y as int * self.z as int
    }

    /// Splits the workgroups needed for `len` elements over three dimensions,
    /// filling `x` first, then `y`, then `z`, each at most `dispatch_limit`.
    pub fn new(settings: DispatchSettings) -> (r: Self)
        requires
            settings.valid(),
        ensures
            r == Self::dispatch_for(settings),
            r.x <= settings.dispatch_limit,
            r.y <= settings.dispatch_limit,
            r.z <= settings.dispatch_limit,
    {
        let workgroup_size = settings.workgroup_size;
        let dispatch_limit = settings.dispatch_limit;
        let len = settings.len;

        let workgroup_count = div_ceil_u32(len, workgroup_size);
        assert(dispatch_limit * dispatch_limit > 0) by (nonlinear_arith)
            requires dispatch_limit > 0;

        let x = min_u32(workgroup_count, dispatch_limit);
        let y = min_u32(div_ceil_u32(workgroup_count, dispatch_limit), dispatch_limit);
        let z = min_u32(div_ceil_u32(workgroup_count, dispatch_limit * dispatch_limit), dispatch_limit);

        Indirect { x, y, z, len }
    }

    /// The number of workgroups the dispatch launches.
    pub fn workgroup_count(&self) -> (r: u32)
        requires
            self.x * self.y <= u32::MAX,
            self.total_workgroups() <= u32::MAX,
        ensures
            r == self.total_workgroups(),
    {
        self.x * self.y * self.z
    }

    /// The three workgroup counts, as a direct dispatch takes them.
    pub fn direct(&self) -> (r: [u32; 3])
        ensures
            r@ == seq![self.x, self.y, self.z],
    {
        [self.x, self.y, self.z]
    }
}

/// A dispatch never launches fewer threads than elements it has to cover,
/// as long as the needed workgroups fit into the three limited dimensions;
/// when they fit into the first dimension it launches exactly the needed
/// workgroups.
pub proof fn lemma_dispatch_covers(settings: DispatchSettings)
    requires
        settings.valid(),
        settings.needed_workgroups() <= settings.dispatch_limit as int
            * settings.dispatch_limit as int * settings.dispatch_limit as int,
    ensures
        Indirect::dispatch_for(settings).total_workgroups() >= settings.needed_workgroups(),
        Indirect::dispatch_for(settings).total_workgroups() * settings.workgroup_size as int
            >= settings.len as int,
        settings.needed_workgroups() <= settings.dispatch_limit ==> Indirect::dispatch_for(
            settings,
        ).total_workgroups() == settings.needed_workgroups(),
{
    let ws = settings.workgroup_size as int;
    let l = settings.dispatch_limit as int;
    let wc = settings.needed_workgroups();
    let d = Indirect::dispatch_for(settings);
    lemma_div_ceil_bounds(settings.len as int, ws);
    lemma_div_ceil_bounds(wc, l);
    assert(l * l > 0) by (nonlinear_arith)
        requires l > 0;
    lemma_div_ceil_bounds(wc, l * l);
    let y0 = div_ceil_spec(wc, l);
    let z0 = div_ceil_spec(wc, l * l);
    if wc == 0 {
        assert(d.x == 0);
        assert(d.total_workgroups() == 0) by (nonlinear_arith)
            requires d.x == 0;
    } else if wc <= l {
        lemma_div_ceil_le(wc, l, 1);
        assert(l <= l * l) by (nonlinear_arith)
            requires l > 0;
        lemma_div_ceil_le(wc, l * l, 1);
        assert(y0 == 1 && z0 == 1);
        assert(min_spec(wc, l) == wc);
        assert(min_spec(y0, l) == 1);
        assert(min_spec(z0, l) == 1);
        assert(d.x == wc && d.y == 1 && d.z == 1);
        assert(d.total_workgroups() == wc);
    } else if wc <= l * l {
        lemma_div_ceil_le(wc, l, l);
        lemma_div_ceil_le(wc, l * l, 1);
        assert(d.x == l && d.y == y0 && d.z == 1);
        assert(d.total_workgroups() == l * y0) by (nonlinear_arith)
            requires d.x == l, d.y == y0, d.z == 1;
    } else {
        lemma_div_ceil_le(wc, l, l);
        lemma_div_ceil_le(wc, l * l, l);
        assert(d.x == l && d.y == l && d.z == z0);
        assert(d.total_workgroups() == (l * l) * z0) by (nonlinear_arith)
            requires d.x == l, d.y == l, d.z == z0;
    }
    assert(d.total_workgroups() * ws >= wc * ws) by (nonlinear_arith)
        requires d.total_workgroups() >= wc, ws > 0;
    assert(wc * ws == ws * wc) by (nonlinear_arith);
}

} // verus!
