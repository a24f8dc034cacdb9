//! A static-site generator's blog and home-page logic: metadata blocks, templates, post
//! cards, tag indexes and an RSS feed, computed from text to text.
use vstd::prelude::*;

pub mod date;
pub mod error;
pub mod home;
pub mod markdown;
pub mod metadata;
pub mod order;
pub mod post;
pub mod render;
pub mod rss;
pub mod text;
