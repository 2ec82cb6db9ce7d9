pub mod api;
pub mod bottle;
pub mod bundle;
pub mod commands;
pub mod ctx;
pub mod doctor;
pub mod env;
pub mod formula;
pub mod install;
pub mod installed;
pub mod json;
pub mod links;
pub mod macho;
pub mod mode;
pub mod path;
pub mod picks;
pub mod postinstall;
pub mod pour;
pub mod profile;
pub mod relocate;
pub mod resolver;
pub mod schedule;
pub mod step_loop;
pub mod step_ops;
pub mod step_plan;
pub mod step_run;
pub mod strmap;
pub mod text;
pub mod ui;
pub mod uninstall;
pub mod upgrade;
