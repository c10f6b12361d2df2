//! Scans stored email messages for unsubscribe links, groups the findings by
//! sending domain, and renders a ranked report as a hypertext document or as
//! a structured export.

pub mod aggregate;
pub mod html;
pub mod json;
pub mod laws;
pub mod links;
pub mod render;
pub mod scan;
pub mod text;
