//! Verified core of the Yolite YouTube Music client.
pub mod account;
pub mod clock;
pub mod controller;
pub mod cookie_form;
pub mod cookies;
pub mod dedupe;
pub mod discord;
pub mod desktop;
pub mod http;
pub mod ids;
pub mod innertube;
pub mod json;
pub mod library;
pub mod models;
pub mod plugins;
pub mod remote;
pub mod stream;
pub mod text;
pub mod updater;
pub mod ytmusic;
