//! Backend logic of a video-chapter editor: conversion between a
//! millisecond count, a structured time value and its display string,
//! and parsing of loosely structured chapter-list text into ordered
//! (time, title) pairs.

pub mod chapters;
pub mod free_text;
pub mod text;
pub mod time_position;
