//! The fluid field: six scalar fields of one dimension, the parameters of
//! the simulation, and the tick that advances them.

use vstd::prelude::*;
use crate::advect::{advect, advect_spec, lemma_advect_is_stable, lemma_advect_zeros};
use crate::boundary::FieldKind;
use crate::diffuse::{
    diffuse, diffuse_spec, diffusion_coefficient, lemma_diffuse_is_stable, lemma_diffuse_zeros,
};
use crate::fixed::{clamp_spec, difference_spec, sum_spec, Fixed, MAX_RAW, ONE_RAW};
use crate::grid::{bounded_by, index_spec, valid_cells, valid_size, zeros, Field};
use crate::project::{
    divergence_spec, lemma_project_zeros, pressure_spec, project, projected_x, projected_y,
};

verus! {

/// The number of relaxation sweeps of a fluid made by `Fluid::new`.
pub const DEFAULT_ITERATIONS: usize = 4;

/// The decay of density at the start of a tick: every cell loses
/// `baseline` and is then clamped between zero and `cap`.
#[derive(Clone, Copy, Debug, PartialEq, Eq)]
pub struct Decay {
    pub baseline: Fixed,
    pub cap: Fixed,
}

/// The mathematical model of a fluid: its parameters and the cells of its
/// six fields.
pub struct FluidState {
    pub grid_size: int,
    pub timestep: int,
    pub diffusion_rate: int,
    pub viscosity: int,
    pub relaxation_iterations: nat,
    /// The baseline and the cap of the decay, where there is one.
    pub decay: Option<(int, int)>,
    pub density: Seq<int>,
    pub density_scratch: Seq<int>,
    pub velocity_x: Seq<int>,
    pub velocity_y: Seq<int>,
    pub velocity_x_scratch: Seq<int>,
    pub velocity_y_scratch: Seq<int>,
}

/// `f` after the decay: every cell less `baseline`, clamped between zero
/// and `cap`.
pub open spec fn decayed(f: Seq<int>, baseline: int, cap: int) -> Seq<int> {
    Seq::new(f.len(), |k: int| clamp_spec(difference_spec(f[k], baseline), 0, cap))
}

/// The state after the decay pass of a tick.
pub open spec fn decay_spec(s: FluidState) -> FluidState {
    match s.decay {
        Some((baseline, cap)) => FluidState { density: decayed(s.density, baseline, cap), ..s },
        None => s,
    }
}

/// The state after the velocity and the density have been advanced by one
/// timestep: the velocity is diffused into its scratch fields and
/// projected there, advected back along itself and projected again; the
/// density is diffused into its scratch field and advected back along the
/// new velocity.
pub open spec fn step_spec(s: FluidState) -> FluidState {
    let n = s.grid_size;
    let dt = s.timestep;
    let sweeps = s.relaxation_iterations;
    let spread_x = diffuse_spec(
        FieldKind::VelocityX,
        n,
        s.velocity_x_scratch,
        s.velocity_x,
        s.viscosity,
        dt,
        sweeps,
    );
    let spread_y = diffuse_spec(
        FieldKind::VelocityY,
        n,
        s.velocity_y_scratch,
        s.velocity_y,
        s.viscosity,
        dt,
        sweeps,
    );
    let first_divergence = divergence_spec(n, spread_x, spread_y, s.velocity_y);
    let first_pressure = pressure_spec(n, spread_x, spread_y, s.velocity_y, sweeps);
    let steady_x = projected_x(n, spread_x, first_pressure);
    let steady_y = projected_y(n, spread_y, first_pressure);
    let moved_x = advect_spec(
        FieldKind::VelocityX,
        n,
        first_pressure,
        steady_x,
        steady_x,
        steady_y,
        dt,
    );
    let moved_y = advect_spec(
        FieldKind::VelocityY,
        n,
        first_divergence,
        steady_y,
        steady_x,
        steady_y,
        dt,
    );
    let divergence = divergence_spec(n, moved_x, moved_y, steady_y);
    let pressure = pressure_spec(n, moved_x, moved_y, steady_y, sweeps);
    let velocity_x = projected_x(n, moved_x, pressure);
    let velocity_y = projected_y(n, moved_y, pressure);
    let spread_density = diffuse_spec(
        FieldKind::Scalar,
        n,
        s.density_scratch,
        s.density,
        s.diffusion_rate,
        dt,
        sweeps,
    );
    let density = advect_spec(
        FieldKind::Scalar,
        n,
        s.density,
        spread_density,
        velocity_x,
        velocity_y,
        dt,
    );
    FluidState {
        density,
        density_scratch: spread_density,
        velocity_x,
        velocity_y,
        velocity_x_scratch: pressure,
        velocity_y_scratch: divergence,
        ..s
    }
}

/// The state after one tick: the decay pass, then the step.
pub open spec fn tick_spec(s: FluidState) -> FluidState {
    step_spec(decay_spec(s))
}

/// The state with every cell of every field zero.
pub open spec fn reset_spec(s: FluidState) -> FluidState {
    FluidState {
        density: zeros(s.grid_size),
        density_scratch: zeros(s.grid_size),
        velocity_x: zeros(s.grid_size),
        velocity_y: zeros(s.grid_size),
        velocity_x_scratch: zeros(s.grid_size),
        velocity_y_scratch: zeros(s.grid_size),
        ..s
    }
}

/// `f` with `amount` added to the cell that `(x, y)` addresses.
pub open spec fn forced(n: int, f: Seq<int>, x: int, y: int, amount: int) -> Seq<int> {
    f.update(index_spec(n, x, y), sum_spec(f[index_spec(n, x, y)], amount))
}

/// A fluid on a square grid.
pub struct Fluid {
    dt: Fixed,
    diffusion: Fixed,
    viscosity: Fixed,
    iterations: usize,
    decay: Option<Decay>,
    density: Field,
    s: Field,
    vx: Field,
    vy: Field,
    vx0: Field,
    vy0: Field,
}

impl View for Fluid {
    type V = FluidState;

    closed spec fn view(&self) -> FluidState {
        FluidState {
            grid_size: self.density.dim(),
            timestep: self.dt@,
            diffusion_rate: self.diffusion@,
            viscosity: self.viscosity@,
            relaxation_iterations: self.iterations as nat,
            decay: match self.decay {
                Some(d) => Some((d.baseline@, d.cap@)),
                None => None,
            },
            density: self.density@,
            density_scratch: self.s@,
            velocity_x: self.vx@,
            velocity_y: self.vy@,
            velocity_x_scratch: self.vx0@,
            velocity_y_scratch: self.vy0@,
        }
    }
}

impl Fluid {
    /// Well-formedness: the six fields are well formed and of one
    /// dimension.
    pub closed spec fn wf(&self) -> bool {
        &&& self.density.wf()
        &&& self.s.wf()
        &&& self.vx.wf()
        &&& self.vy.wf()
        &&& self.vx0.wf()
        &&& self.vy0.wf()
        &&& self.s.dim() == self.density.dim()
        &&& self.vx.dim() == self.density.dim()
        &&& self.vy.dim() == self.density.dim()
        &&& self.vx0.dim() == self.density.dim()
        &&& self.vy0.dim() == self.density.dim()
    }

    /// What well-formedness says of the model.
    pub proof fn lemma_wf(&self)
        requires
            self.wf(),
        ensures
            valid_size(self@.grid_size),
            valid_cells(self@.grid_size, self@.density),
            valid_cells(self@.grid_size, self@.density_scratch),
            valid_cells(self@.grid_size, self@.velocity_x),
            valid_cells(self@.grid_size, self@.velocity_y),
            valid_cells(self@.grid_size, self@.velocity_x_scratch),
            valid_cells(self@.grid_size, self@.velocity_y_scratch),
    {
    }

    /// A fluid at rest on a grid of dimension `grid_size`, with the default
    /// number of relaxation sweeps and no decay.
    pub fn new(grid_size: usize, dt: Fixed, diffusion_rate: Fixed, viscosity: Fixed) -> (fluid:
        Fluid)
        requires
            valid_size(grid_size as int),
        ensures
            fluid.wf(),
            fluid@ == (FluidState {
                grid_size: grid_size as int,
                timestep: dt@,
                diffusion_rate: diffusion_rate@,
                viscosity: viscosity@,
                relaxation_iterations: DEFAULT_ITERATIONS as nat,
                decay: None,
                density: zeros(grid_size as int),
                density_scratch: zeros(grid_size as int),
                velocity_x: zeros(grid_size as int),
                velocity_y: zeros(grid_size as int),
                velocity_x_scratch: zeros(grid_size as int),
                velocity_y_scratch: zeros(grid_size as int),
            }),
    {
        Fluid {
            dt,
            diffusion: diffusion_rate,
            viscosity,
            iterations: DEFAULT_ITERATIONS,
            decay: None,
            density: Field::new(grid_size),
            s: Field::new(grid_size),
            vx: Field::new(grid_size),
            vy: Field::new(grid_size),
            vx0: Field::new(grid_size),
            vy0: Field::new(grid_size),
        }
    }

    /// The fluid with `iterations` relaxation sweeps in each solve.
    pub fn with_iterations(self, iterations: usize) -> (fluid: Fluid)
        requires
            self.wf(),
        ensures
            fluid.wf(),
            fluid@ == (FluidState { relaxation_iterations: iterations as nat, ..self@ }),
    {
        let mut fluid = self;
        fluid.iterations = iterations;
        fluid
    }

    /// The fluid with a decay of density at the start of each tick.
    pub fn with_decay(self, baseline: Fixed, cap: Fixed) -> (fluid: Fluid)
        requires
            self.wf(),
        ensures
            fluid.wf(),
            fluid@ == (FluidState { decay: Some((baseline@, cap@)), ..self@ }),
    {
        let mut fluid = self;
        fluid.decay = Some(Decay { baseline, cap });
        fluid
    }

    /// Adds `amount` to the density of the cell that `(x, y)` addresses.
    pub fn add_density(&mut self, x: i64, y: i64, amount: Fixed)
        requires
            old(self).wf(),
        ensures
            final(self).wf(),
            final(self)@ == (FluidState {
                density: forced(
                    old(self)@.grid_size,
                    old(self)@.density,
                    x as int,
                    y as int,
                    amount@,
                ),
                ..old(self)@
            }),
    {
        let now: Fixed = self.density.get(x, y);
        self.density.set(x, y, now.saturating_add(amount));
    }

    /// Adds `(dx, dy)` to the velocity of the cell that `(x, y)` addresses.
    pub fn add_velocity(&mut self, x: i64, y: i64, dx: Fixed, dy: Fixed)
        requires
            old(self).wf(),
        ensures
            final(self).wf(),
            final(self)@ == (FluidState {
                velocity_x: forced(
                    old(self)@.grid_size,
                    old(self)@.velocity_x,
                    x as int,
                    y as int,
                    dx@,
                ),
                velocity_y: forced(
                    old(self)@.grid_size,
                    old(self)@.velocity_y,
                    x as int,
                    y as int,
                    dy@,
                ),
                ..old(self)@
            }),
    {
        let x_now: Fixed = self.vx.get(x, y);
        self.vx.set(x, y, x_now.saturating_add(dx));
        let y_now: Fixed = self.vy.get(x, y);
        self.vy.set(x, y, y_now.saturating_add(dy));
    }

    /// The density of the cell that `(x, y)` addresses.
    pub fn read_density(&self, x: i64, y: i64) -> (v: Fixed)
        requires
            self.wf(),
        ensures
            v@ == self@.density[index_spec(self@.grid_size, x as int, y as int)],
    {
        self.density.get(x, y)
    }

    /// The grid dimension.
    pub fn grid_size(&self) -> (n: usize)
        ensures
            n == self@.grid_size,
    {
        self.density.size()
    }

    /// The timestep of one tick.
    pub fn timestep(&self) -> (dt: Fixed)
        ensures
            dt@ == self@.timestep,
    {
        self.dt
    }

    /// The rate at which density diffuses.
    pub fn diffusion_rate(&self) -> (rate: Fixed)
        ensures
            rate@ == self@.diffusion_rate,
    {
        self.diffusion
    }

    /// The rate at which velocity diffuses.
    pub fn viscosity(&self) -> (rate: Fixed)
        ensures
            rate@ == self@.viscosity,
    {
        self.viscosity
    }

    /// The number of relaxation sweeps in each solve.
    pub fn relaxation_iterations(&self) -> (iterations: usize)
        ensures
            iterations == self@.relaxation_iterations,
    {
        self.iterations
    }

    /// The decay of density, where the fluid has one.
    pub fn density_decay(&self) -> (decay: Option<Decay>)
        ensures
            match decay {
                Some(d) => self@.decay == Some((d.baseline@, d.cap@)),
                None => self@.decay.is_none(),
            },
    {
        self.decay
    }

    /// The density field.
    pub fn density(&self) -> (field: &Field)
        requires
            self.wf(),
        ensures
            field.wf(),
            field.dim() == self@.grid_size,
            field@ == self@.density,
    {
        &self.density
    }

    /// The scratch field of the density.
    pub fn density_scratch(&self) -> (field: &Field)
        requires
            self.wf(),
        ensures
            field.wf(),
            field.dim() == self@.grid_size,
            field@ == self@.density_scratch,
    {
        &self.s
    }

    /// The horizontal velocity field.
    pub fn velocity_x(&self) -> (field: &Field)
        requires
            self.wf(),
        ensures
            field.wf(),
            field.dim() == self@.grid_size,
            field@ == self@.velocity_x,
    {
        &self.vx
    }

    /// The vertical velocity field.
    pub fn velocity_y(&self) -> (field: &Field)
        requires
            self.wf(),
        ensures
            field.wf(),
            field.dim() == self@.grid_size,
            field@ == self@.velocity_y,
    {
        &self.vy
    }

    /// The scratch field of the horizontal velocity.
    pub fn velocity_x_scratch(&self) -> (field: &Field)
        requires
            self.wf(),
        ensures
            field.wf(),
            field.dim() == self@.grid_size,
            field@ == self@.velocity_x_scratch,
    {
        &self.vx0
    }

    /// The scratch field of the vertical velocity.
    pub fn velocity_y_scratch(&self) -> (field: &Field)
        requires
            self.wf(),
        ensures
            field.wf(),
            field.dim() == self@.grid_size,
            field@ == self@.velocity_y_scratch,
    {
        &self.vy0
    }

    /// Sets every cell of every field to zero.
    pub fn reset(&mut self)
        requires
            old(self).wf(),
        ensures
            final(self).wf(),
            final(self)@ == reset_spec(old(self)@),
    {
        self.density.clear();
        self.s.clear();
        self.vx.clear();
        self.vy.clear();
        self.vx0.clear();
        self.vy0.clear();
    }

    /// The decay pass: where the fluid has a decay, every density cell
    /// loses the baseline and is clamped between zero and the cap.
    pub fn decay(&mut self)
        requires
            old(self).wf(),
        ensures
            final(self).wf(),
            final(self)@ == decay_spec(old(self)@),
            old(self)@.decay matches Some((baseline, cap)) ==> cap >= 0 ==> forall|k: int|
                0 <= k < final(self)@.density.len() ==> 0 <= #[trigger] final(self)@.density[k]
                    <= cap,
    {
        match self.decay {
            Some(d) => {
                let ghost before: Seq<int> = self.density@;
                let count: usize = self.density.len();
                let mut k: usize = 0;
                while k < count
                    invariant
                        self.wf(),
                        k <= count,
                        count == before.len(),
                        self.density@.len() == count,
                        self.decay == old(self).decay,
                        self.decay == Some(d),
                        self@ == (FluidState { density: self.density@, ..old(self)@ }),
                        forall|i: int|
                            0 <= i < count ==> #[trigger] self.density@[i] == (if i < k {
                                clamp_spec(difference_spec(before[i], d.baseline@), 0, d.cap@)
                            } else {
                                before[i]
                            }),
                    decreases count - k,
                {
                    let v: Fixed = self.density.get_at(k).saturating_sub(d.baseline).clamp(
                        Fixed::zero(),
                        d.cap,
                    );
                    self.density.set_at(k, v);
                    k += 1;
                }
                assert(self.density@ =~= decayed(before, d.baseline@, d.cap@));
            },
            None => {},
        }
    }

    /// Advances the velocity and the density by one timestep.
    pub fn step(&mut self)
        requires
            old(self).wf(),
        ensures
            final(self).wf(),
            final(self)@ == step_spec(old(self)@),
    {
        let dt: Fixed = self.dt;
        let sweeps: usize = self.iterations;
        diffuse(FieldKind::VelocityX, &mut self.vx0, &self.vx, self.viscosity, dt, sweeps);
        diffuse(FieldKind::VelocityY, &mut self.vy0, &self.vy, self.viscosity, dt, sweeps);
        project(&mut self.vx0, &mut self.vy0, &mut self.vx, &mut self.vy, sweeps);
        advect(FieldKind::VelocityX, &mut self.vx, &self.vx0, &self.vx0, &self.vy0, dt);
        advect(FieldKind::VelocityY, &mut self.vy, &self.vy0, &self.vx0, &self.vy0, dt);
        project(&mut self.vx, &mut self.vy, &mut self.vx0, &mut self.vy0, sweeps);
        diffuse(FieldKind::Scalar, &mut self.s, &self.density, self.diffusion, dt, sweeps);
        advect(FieldKind::Scalar, &mut self.density, &self.s, &self.vx, &self.vy, dt);
    }

    /// Advances the simulation by one tick: the decay pass, then the step.
    pub fn tick(&mut self)
        requires
            old(self).wf(),
        ensures
            final(self).wf(),
            final(self)@ == tick_spec(old(self)@),
    {
        self.decay();
        self.step();
    }
}

/// Whether every cell of every field is zero.
pub open spec fn at_rest(s: FluidState) -> bool {
    &&& s.density == zeros(s.grid_size)
    &&& s.density_scratch == zeros(s.grid_size)
    &&& s.velocity_x == zeros(s.grid_size)
    &&& s.velocity_y == zeros(s.grid_size)
    &&& s.velocity_x_scratch == zeros(s.grid_size)
    &&& s.velocity_y_scratch == zeros(s.grid_size)
}

/// Whether the decay leaves a density of zero at zero. It does where the
/// fluid has none, and where neither the baseline nor the cap is negative.
pub open spec fn decay_keeps_zero(s: FluidState) -> bool {
    match s.decay {
        Some((baseline, cap)) => clamp_spec(difference_spec(0, baseline), 0, cap) == 0,
        None => true,
    }
}

/// The state after `count` ticks.
pub open spec fn ticks_spec(s: FluidState, count: nat) -> FluidState
    decreases count,
{
    if count == 0 {
        s
    } else {
        tick_spec(ticks_spec(s, (count - 1) as nat))
    }
}

/// A fluid at rest stays at rest: with no forcing, and a decay that leaves
/// zero at zero, any number of ticks leaves every cell of every field
/// exactly zero.
pub proof fn lemma_rest_is_conserved(s: FluidState, count: nat)
    requires
        s.grid_size >= 1,
        at_rest(s),
        decay_keeps_zero(s),
    ensures
        ticks_spec(s, count) == s,
    decreases count,
{
    if count > 0 {
        lemma_rest_is_conserved(s, (count - 1) as nat);
        let n = s.grid_size;
        let sweeps = s.relaxation_iterations;
        let z = zeros(n);
        match s.decay {
            Some((baseline, cap)) => {
                assert(decayed(z, baseline, cap) =~= z);
            },
            None => {},
        }
        assert(decay_spec(s) == s);
        lemma_diffuse_zeros(FieldKind::VelocityX, n, s.viscosity, s.timestep, sweeps);
        lemma_diffuse_zeros(FieldKind::VelocityY, n, s.viscosity, s.timestep, sweeps);
        lemma_diffuse_zeros(FieldKind::Scalar, n, s.diffusion_rate, s.timestep, sweeps);
        lemma_project_zeros(n, sweeps);
        lemma_advect_zeros(FieldKind::VelocityX, n, s.timestep);
        lemma_advect_zeros(FieldKind::VelocityY, n, s.timestep);
        lemma_advect_zeros(FieldKind::Scalar, n, s.timestep);
        assert(step_spec(s) == s);
    }
}

/// Resetting twice is resetting once.
pub proof fn lemma_reset_is_idempotent(s: FluidState)
    ensures
        reset_spec(reset_spec(s)) == reset_spec(s),
        at_rest(reset_spec(s)),
{
}

/// The step never makes the density larger: on a grid with an interior,
/// with a diffusion rate and a timestep that are not negative and small
/// enough for the divisor of the diffusion system to be representable, no
/// cell of the density or of its scratch field comes out larger in
/// magnitude than the largest cell that the two held, whatever the
/// velocity.
pub proof fn lemma_step_keeps_density_bounded(s: FluidState, m: int)
    requires
        s.grid_size >= 3,
        s.density.len() == s.grid_size * s.grid_size,
        s.density_scratch.len() == s.grid_size * s.grid_size,
        0 <= s.diffusion_rate,
        0 <= s.timestep,
        6 * diffusion_coefficient(s.grid_size, s.diffusion_rate, s.timestep) <= MAX_RAW
            - ONE_RAW,
        0 <= m <= MAX_RAW,
        bounded_by(s.density, m),
        bounded_by(s.density_scratch, m),
    ensures
        bounded_by(step_spec(s).density, m),
        bounded_by(step_spec(s).density_scratch, m),
{
    let n = s.grid_size;
    let after = step_spec(s);
    lemma_diffuse_is_stable(
        FieldKind::Scalar,
        n,
        s.density_scratch,
        s.density,
        s.diffusion_rate,
        s.timestep,
        s.relaxation_iterations,
        m,
    );
    lemma_advect_is_stable(
        FieldKind::Scalar,
        n,
        s.density,
        after.density_scratch,
        after.velocity_x,
        after.velocity_y,
        s.timestep,
        m,
    );
}

} // verus!
