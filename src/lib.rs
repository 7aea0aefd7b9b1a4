//! Support library for a small 3D rendering engine: a verified shader source
//! preprocessor, with the unit markers, conversions and tuple predicates the
//! engine uses around it.
pub mod angle;
pub mod convert;
pub mod defines;
pub mod laws;
pub mod paths;
pub mod plugins;
pub mod shader;
pub mod text;
pub mod tuples;

pub use angle::{
    AngleDegreesType, AngleRadiansType, AngleTurnType, AngleType, DegreesType, RadiansType,
    UnitAngleType,
};
pub use convert::Converter;
pub use plugins::PluginsState;
pub use shader::{Shader, ShaderBuilder, ShaderError, SourceRepository};
pub use tuples::{TupleMath, TupleMathEq};
