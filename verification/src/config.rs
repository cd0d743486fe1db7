//! What a deployment is configured with: the cache's capacity, the grid's
//! dimension, and the engine that matches shapes.

use vstd::prelude::*;

verus! {

/// The number of locations that are cached where nothing else is asked for.
pub const DEFAULT_CACHE_SIZE: usize = 3;

/// The largest dimension of a grid, in cells, where nothing else is asked for.
pub const DEFAULT_GRID_DIM: usize = 9000;

/// The number of rows that a device matches in one step.
pub const DEVICE_STEP: usize = 256;

/// The engine that matches a shape against a window.
#[derive(Debug, Clone, Copy, PartialEq, Eq, Structural)]
pub enum Engine {
    /// One core.
    SingleCore,
    /// All cores.
    MultiCore,
    /// A compute device, which takes `step` rows at a time.
    Device { step: usize },
}

/// The configuration of a deployment.
#[derive(Debug, Clone, Copy, PartialEq, Eq, Structural)]
pub struct Config {
    /// Whether a compute device was selected.
    pub device: bool,
    /// Whether matching is to stay on one core.
    pub sequential: bool,
    /// The number of locations that the cache holds at most.
    pub cache_size: usize,
    /// The largest dimension of a grid, in cells.
    pub grid_dim: usize,
}

impl Config {
    /// The configuration for the options that were given, with the default
    /// for each size that was not.
    pub fn from_options(
        device: bool,
        sequential: bool,
        cache_size: Option<usize>,
        grid_dim: Option<usize>,
    ) -> (config: Config)
        ensures
            config.device == device,
            config.sequential == sequential,
            config.cache_size == match cache_size {
                Some(n) => n,
                None => DEFAULT_CACHE_SIZE,
            },
            config.grid_dim == match grid_dim {
                Some(n) => n,
                None => DEFAULT_GRID_DIM,
            },
    {
        Config {
            device,
            sequential,
            cache_size: match cache_size {
                Some(n) => n,
                None => DEFAULT_CACHE_SIZE,
            },
            grid_dim: match grid_dim {
                Some(n) => n,
                None => DEFAULT_GRID_DIM,
            },
        }
    }

    /// The engine that this configuration selects.
    pub open spec fn spec_engine(&self) -> Engine {
        if self.device {
            Engine::Device { step: DEVICE_STEP }
        } else if self.sequential {
            Engine::SingleCore
        } else {
            Engine::MultiCore
        }
    }

    /// The engine that this configuration selects: the device where one was
    /// selected, else one core where that was asked for, else all cores.
    pub fn engine(&self) -> (engine: Engine)
        ensures
            engine == self.spec_engine(),
    {
        if self.device {
            Engine::Device { step: DEVICE_STEP }
        } else if self.sequential {
            Engine::SingleCore
        } else {
            Engine::MultiCore
        }
    }
}

/// The device at position `idx` of the devices that were found, if there
/// are that many.
pub fn device_for_index<D: Copy>(devices: &[D], idx: usize) -> (device: Option<D>)
    ensures
        device == if idx < devices@.len() {
            Some(devices@[idx as int])
        } else {
            None
        },
{
    if idx < devices.len() {
        Some(devices[idx])
    } else {
        None
    }
}

} // verus!
