//! Verified tools for Huawei and HarmonyOS firmware: EROFS image building,
//! signed images, partition tables, OEMINFO partitions, UPDATE.APP packages and
//! the fastboot scripts that flash them.

pub mod bytes;
pub mod erofs;
pub mod fastboot;
pub mod flash;
pub mod formats;
pub mod jobs;
pub mod names;
pub mod oeminfo;
pub mod shell;
pub mod splituapp;
pub mod text;
