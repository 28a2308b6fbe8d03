[package]
name = "geodatafusion_parquet"
version = "0.1.0"
edition = "2021"
publish = false

[dependencies]
arrow-schema = "57"
async-trait = "0.1"
datafusion = { version = "51", default-features = false, features = ["parquet"] }
datafusion-datasource = { version = "51", default-features = false }
datafusion-datasource-parquet = { version = "51", default-features = false }
futures = "0.3"
geo = { version = "0.31", default-features = false }
geo-traits = "0.3"
geoarrow-array = "0.7"
object_store = { version = "0.12", default-features = false }
parquet = { version = "57", default-features = false, features = ["arrow", "async", "object_store"] }
rstar = "0.12"
wkt = "0.14"
