//! A codec for the BSON Decimal128 type: conversion between the packed
//! 128-bit layout, its 16-byte little-endian wire form and decimal text.
pub mod layout;
pub mod digits;
pub mod format;
pub mod parse;
pub mod canonical;
pub mod decimal;
