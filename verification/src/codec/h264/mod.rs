//! The H.264 decoder.
pub mod annexb;
pub mod around;
pub mod avcc;
pub mod blocks;
pub mod cabac;
pub mod cabac_coding;
pub mod cabac_init;
pub mod cabac_tables;
pub mod codes;
pub mod continuation;
pub mod deblock;
pub mod deblock_tables;
pub mod decoder;
pub mod describe;
pub mod drawing;
pub mod elements;
pub mod differential;
pub mod headers;
pub mod inter;
pub mod intra;
pub mod lookahead;
pub mod loopfilter;
pub mod macroblock;
pub mod math;
pub mod mb;
pub mod neighbour;
pub mod oracle;
pub mod order;
pub mod picture;
pub mod picture_decode;
pub mod recon;
pub mod reference;
pub mod residual;
pub mod residuals;
pub mod responses;
pub mod scaling;
pub mod slice;
pub mod state;
pub mod syntax;
pub mod transform;
