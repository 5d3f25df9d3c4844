//! The theory that the laws of the library rest on: combinatory logic on application
//! trees and the strategy that finds their normal forms, what terms stand for, and
//! the transparency of bracket abstraction.

pub mod calculus;
pub mod abstraction;
pub mod strategy;
pub mod semantics;
pub mod normal;
pub mod normalization;
pub mod unfolding;
pub mod transparency;
