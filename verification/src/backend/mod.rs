//! Where the app gets everything that is not the space: the catalogue, the
//! block list, the crawl and the pipeline, all through the server.

pub mod remote;
