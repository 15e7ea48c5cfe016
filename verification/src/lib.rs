pub mod auth;
pub mod bundle;
pub mod bytes;
pub mod changes;
pub mod commands;
pub mod commits;
pub mod encoding;
pub mod fsck;
pub mod graph;
pub mod history;
pub mod ignore;
pub mod keep;
pub mod loading;
pub mod locks;
pub mod merge;
pub mod model;
pub mod objects;
pub mod paths;
pub mod remote;
pub mod report;
pub mod roundtrip;
pub mod server;
pub mod staging;
pub mod strmap;
pub mod text;
pub mod tree;
pub mod walk;
