pub mod components;
pub mod pathutils;
pub mod pathfilter;
pub mod fsscanner_base;
pub mod fsscanner_mt;
pub mod fileentry;
pub mod threadpool;
