//! Declarative Agent Skill catalogs and convergent installation.

pub mod agents;
pub mod announce;
pub mod authoring;
pub mod catalog;
pub mod catalog_laws;
pub mod cli;
pub mod closure_laws;
pub mod columns;
pub mod config;
pub mod config_frame;
pub mod config_report;
pub mod config_tui;
pub mod config_ui;
pub mod config_view;
pub mod convergence;
pub mod diagnosis;
pub mod diagnosis_laws;
pub mod digest;
pub mod digest_laws;
pub mod doctor;
pub mod failure;
pub mod field_laws;
pub mod frame_laws;
pub mod frontmatter;
pub mod gitignore;
pub mod graph;
pub mod install;
pub mod install_laws;
pub mod link;
pub mod link_laws;
pub mod lock;
pub mod manual;
pub mod message_laws;
pub mod migration;
pub mod migration_laws;
pub mod model;
pub mod model_laws;
pub mod name_map;
pub mod outcome_laws;
pub mod output;
pub mod outside;
pub mod ownership;
pub mod paint_laws;
pub mod paths;
pub mod plan;
pub mod plan_laws;
pub mod project_store;
pub mod projection_laws;
pub mod reach;
pub mod recommend;
pub mod reconcile;
pub mod reconcile_laws;
pub mod release;
pub mod repair_laws;
pub mod report_laws;
pub mod resolution_laws;
pub mod resolve;
pub mod row_laws;
pub mod screen_laws;
pub mod status;
pub mod store_laws;
pub mod targets;
pub mod text;
pub mod text_laws;
pub mod transaction;
pub mod transaction_laws;
pub mod update;
pub mod view_laws;
pub mod work;
