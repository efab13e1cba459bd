//! Verified LZ compressors and decompressors for small 8-bit targets.
pub mod basic;
pub mod bitio;
pub mod gammaq;
pub mod gaps;
pub mod laws;
pub mod lz;
pub mod matchfinder;
pub mod parse;
pub mod parselaws;
pub mod pucheap;
pub mod pucrunch;
pub mod pulaws;
pub mod puparse;
pub mod pustream;
pub mod putoken;
pub mod shrcoder;
pub mod shrcost;
pub mod shrenc;
pub mod shrinkler;
pub mod shrlaws;
pub mod shrmap;
pub mod shrmatch;
pub mod shrparse;
pub mod shrstream;
pub mod stockcost;
pub mod stocklaws;
pub mod subenc;
pub mod sublaws;
pub mod submatch;
pub mod subpath;
pub mod subsizer;
pub mod substream;
pub mod suffix;
pub mod testcorpus;
pub mod text;
pub mod tscrunch;
pub mod tsgraph;
pub mod tslaws;
pub mod tspath;
pub mod tsstream;
pub mod ulaws;
pub mod uparse;
pub mod usearch;
pub mod upkr;
pub mod upkrenc;
pub mod upkrstream;
pub mod urans;
pub mod zx;
pub mod zx02;
pub mod zx0compat;
pub mod zxblocks;
pub mod zx0opt;
pub mod zxbest;
pub mod zxcost;
pub mod zxdp;
pub mod zxlane;
pub mod zxlaws;
pub mod zxpack;
pub mod zxreach;
pub mod zxrows;
pub mod zxsearch;
pub mod zxseed;
pub mod zxstats;
pub mod zxwithin;
