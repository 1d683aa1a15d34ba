//! A command-line tool and HTTP service: greetings, fetching a URL, running a
//! shell command, serving HTTP, and Google Cloud token and bucket commands. This
//! library holds what those commands decide and compute; the program around it
//! does the I/O.

pub mod command;
pub mod gcloud;
pub mod serve;
pub mod text;
