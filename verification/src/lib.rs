//! A template engine for stored HTTP request definitions.
//!
//! A template is plain text containing named placeholders written
//! `{{name}}`. The library discovers the placeholders in a single
//! left-to-right scan, extracts the set of names, validates a
//! caller-supplied parameter mapping against that set, and renders the text
//! with the parameter values substituted. Parsing and rendering are total;
//! validation fails exactly when a template name has no parameter.
//!
//! Text is handled as UTF-8 bytes; the placeholder delimiters are ASCII, so
//! every placeholder boundary falls on a character boundary.

pub mod bytes;
pub mod config;
pub mod laws;
pub mod params;
pub mod template;
pub mod validate;

pub use config::HttpMethod;
pub use config::RequestConfig;
pub use config::classify_method;
pub use config::default_header;
pub use params::ParamMap;
pub use params::params_to_map;
pub use template::Template;
pub use validate::RequestrError;
pub use validate::unused_parameters;
pub use validate::validate_parameter;
