//! The parameters of one run, and the device's limit on a launch.

use vstd::prelude::*;

verus! {

/// The product of two 32-bit numbers has at most 64 bits.
proof fn lemma_product_fits(a: u32, b: u32)
    ensures
        0 <= a * b <= u64::MAX,
{
    assert(0 <= a * b <= 0xffff_ffff * 0xffff_ffff) by (nonlinear_arith)
        requires
            0 <= a <= 0xffff_ffff,
            0 <= b <= 0xffff_ffff,
    ;
}

/// Why a set of parameters was turned down.
#[derive(Clone, Copy, Debug, PartialEq, Eq, Structural)]
pub enum ConfigError {
    /// The image has no rows.
    ZeroHeight,
    /// The image has no columns.
    ZeroWidth,
    /// No step of the recurrence is allowed.
    ZeroIterations,
}

/// The size of the image and the bound on the steps of each orbit. None of
/// the three is zero.
#[derive(Clone, Copy, Debug, PartialEq, Eq, Structural)]
pub struct RunParameters {
    height: u32,
    width: u32,
    max_iterations: u32,
}

impl RunParameters {
    /// The number of rows.
    pub closed spec fn spec_height(&self) -> u32 {
        self.height
    }

    /// The number of columns.
    pub closed spec fn spec_width(&self) -> u32 {
        self.width
    }

    /// The bound on the steps of each orbit.
    pub closed spec fn spec_max_iterations(&self) -> u32 {
        self.max_iterations
    }

    /// What holds of every value of the type.
    pub open spec fn wf(self) -> bool {
        self.spec_height() > 0 && self.spec_width() > 0 && self.spec_max_iterations() > 0
    }

    /// The parameters, unless one of them is zero: the first that is decides
    /// the error, in the order height, width, bound.
    pub fn new(height: u32, width: u32, max_iterations: u32) -> (r: Result<
        RunParameters,
        ConfigError,
    >)
        ensures
            height == 0 ==> r == Err::<RunParameters, ConfigError>(ConfigError::ZeroHeight),
            height > 0 && width == 0 ==> r == Err::<RunParameters, ConfigError>(
                ConfigError::ZeroWidth,
            ),
            height > 0 && width > 0 && max_iterations == 0 ==> r == Err::<
                RunParameters,
                ConfigError,
            >(ConfigError::ZeroIterations),
            height > 0 && width > 0 && max_iterations > 0 ==> r is Ok,
            r matches Ok(p) ==> p.wf() && p.spec_height() == height && p.spec_width() == width
                && p.spec_max_iterations() == max_iterations,
    {
        if height == 0 {
            Err(ConfigError::ZeroHeight)
        } else if width == 0 {
            Err(ConfigError::ZeroWidth)
        } else if max_iterations == 0 {
            Err(ConfigError::ZeroIterations)
        } else {
            Ok(RunParameters { height, width, max_iterations })
        }
    }

    /// The number of rows.
    #[verifier::when_used_as_spec(spec_height)]
    pub fn height(&self) -> (height: u32)
        ensures
            height == self.spec_height(),
    {
        self.height
    }

    /// The number of columns.
    #[verifier::when_used_as_spec(spec_width)]
    pub fn width(&self) -> (width: u32)
        ensures
            width == self.spec_width(),
    {
        self.width
    }

    /// The bound on the steps of each orbit.
    #[verifier::when_used_as_spec(spec_max_iterations)]
    pub fn max_iterations(&self) -> (max_iterations: u32)
        ensures
            max_iterations == self.spec_max_iterations(),
    {
        self.max_iterations
    }

    /// The number of pixels, where a device can address that many: flat
    /// indices on a device are 32 bits wide.
    pub fn work_items(&self) -> (total: Option<usize>)
        ensures
            total == if self.spec_height() * self.spec_width() <= u32::MAX {
                Some((self.spec_height() * self.spec_width()) as usize)
            } else {
                None
            },
    {
        proof {
            lemma_product_fits(self.height, self.width);
        }
        let total: u64 = self.height as u64 * self.width as u64;
        if total <= u32::MAX as u64 {
            Some(total as usize)
        } else {
            None
        }
    }
}

/// The number of work-items that a device takes in one launch: its number
/// of groups times the threads of each group, or the greatest `usize` where
/// the product is more than that.
pub fn max_concurrent_work_items(max_groups: u32, threads_per_group: u32) -> (capacity: usize)
    ensures
        capacity == if max_groups * threads_per_group <= usize::MAX {
            max_groups * threads_per_group
        } else {
            usize::MAX as int
        },
{
    proof {
        lemma_product_fits(max_groups, threads_per_group);
    }
    let product: u64 = max_groups as u64 * threads_per_group as u64;
    if product <= usize::MAX as u64 {
        product as usize
    } else {
        usize::MAX
    }
}

} // verus!
